pub mod mem32;
pub mod hex;
pub mod laws;

use vstd::prelude::*;
use vstd::utf8::encode_utf8;
use crate::strings::push_char;
use crate::emu32::maps::hex::{spaced_hex, all_bytes, parse_spaced, collect_bytes};
use crate::emu32::maps::mem32::{Mem32, MemRegion, word_bytes, dword_bytes};

verus! {

/// What a `Maps` holds: its named regions, in the order they were created.
pub type MapsView = Seq<(Seq<char>, MemRegion)>;

/// No two regions share a name, and every region ends at a valid 32-bit address.
pub open spec fn maps_wf(s: MapsView) -> bool {
    &&& forall|i: int, j: int| 0 <= i < s.len() && 0 <= j < s.len() && i != j ==> s[i].0 != s[j].0
    &&& forall|i: int| 0 <= i < s.len() ==> #[trigger] s[i].1.bottom() <= u32::MAX
}

/// Index of the first region, from position `k` on, that holds `addr`.
pub open spec fn region_index_from(s: MapsView, addr: int, k: int) -> Option<int>
    decreases s.len() - k,
{
    if k < 0 || k >= s.len() {
        None
    } else if s[k].1.holds(addr) {
        Some(k)
    } else {
        region_index_from(s, addr, k + 1)
    }
}

/// Index of the first region that holds `addr`.
pub open spec fn region_index(s: MapsView, addr: int) -> Option<int> {
    region_index_from(s, addr, 0)
}

/// Index of the first region, from position `k` on, named `name`.
pub open spec fn name_index_from(s: MapsView, name: Seq<char>, k: int) -> Option<int>
    decreases s.len() - k,
{
    if k < 0 || k >= s.len() {
        None
    } else if s[k].0 == name {
        Some(k)
    } else {
        name_index_from(s, name, k + 1)
    }
}

/// Index of the region named `name`.
pub open spec fn name_index(s: MapsView, name: Seq<char>) -> Option<int> {
    name_index_from(s, name, 0)
}

/// Some region holds `addr`.
pub open spec fn is_mapped_spec(s: MapsView, addr: int) -> bool {
    region_index(s, addr) is Some
}

/// The byte at `addr`, if a region holds it.
pub open spec fn byte_at(s: MapsView, addr: int) -> Option<u8> {
    match region_index(s, addr) {
        Some(i) => Some(s[i].1.byte_at(addr)),
        None => None,
    }
}

/// The little-endian word at `addr`, if a region holds `addr`.
pub open spec fn word_at(s: MapsView, addr: int) -> Option<u16> {
    match region_index(s, addr) {
        Some(i) => Some(s[i].1.word_at(addr) as u16),
        None => None,
    }
}

/// The little-endian double word at `addr`, if a region holds `addr`.
pub open spec fn dword_at(s: MapsView, addr: int) -> Option<u32> {
    match region_index(s, addr) {
        Some(i) => Some(s[i].1.dword_at(addr) as u32),
        None => None,
    }
}

/// The region that holds `addr`, if any, also holds the next `n - 1` addresses.
pub open spec fn room_at(s: MapsView, addr: int, n: int) -> bool {
    match region_index(s, addr) {
        Some(i) => s[i].1.fits(addr, n),
        None => true,
    }
}

/// The regions after `data` is stored at `addr` in the region that holds `addr`;
/// unchanged when no region holds it.
pub open spec fn store_at(s: MapsView, addr: int, data: Seq<u8>) -> MapsView {
    match region_index(s, addr) {
        Some(i) => s.update(i, (s[i].0, s[i].1.store(addr, data))),
        None => s,
    }
}

/// `region_index_from` finds the first holder at or after `k`.
pub proof fn lemma_region_index_from(s: MapsView, addr: int, k: int)
    requires
        0 <= k,
    ensures
        match region_index_from(s, addr, k) {
            Some(i) => k <= i < s.len() && s[i].1.holds(addr) && forall|j: int|
                k <= j < i ==> !(#[trigger] s[j].1.holds(addr)),
            None => forall|j: int| k <= j < s.len() ==> !(#[trigger] s[j].1.holds(addr)),
        },
    decreases s.len() - k,
{
    if k < s.len() && !s[k].1.holds(addr) {
        lemma_region_index_from(s, addr, k + 1);
    }
}

/// `region_index` finds the first holder.
pub proof fn lemma_region_index(s: MapsView, addr: int)
    ensures
        match region_index(s, addr) {
            Some(i) => 0 <= i < s.len() && s[i].1.holds(addr) && forall|j: int|
                0 <= j < i ==> !(#[trigger] s[j].1.holds(addr)),
            None => forall|j: int| 0 <= j < s.len() ==> !(#[trigger] s[j].1.holds(addr)),
        },
{
    lemma_region_index_from(s, addr, 0);
}

/// `name_index_from` finds the first region with that name at or after `k`.
pub proof fn lemma_name_index_from(s: MapsView, name: Seq<char>, k: int)
    requires
        0 <= k,
    ensures
        match name_index_from(s, name, k) {
            Some(i) => k <= i < s.len() && s[i].0 == name && forall|j: int|
                k <= j < i ==> #[trigger] s[j].0 != name,
            None => forall|j: int| k <= j < s.len() ==> #[trigger] s[j].0 != name,
        },
    decreases s.len() - k,
{
    if k < s.len() && s[k].0 != name {
        lemma_name_index_from(s, name, k + 1);
    }
}

/// `name_index` finds the region with that name.
pub proof fn lemma_name_index(s: MapsView, name: Seq<char>)
    ensures
        match name_index(s, name) {
            Some(i) => 0 <= i < s.len() && s[i].0 == name && forall|j: int|
                0 <= j < i ==> #[trigger] s[j].0 != name,
            None => forall|j: int| 0 <= j < s.len() ==> #[trigger] s[j].0 != name,
        },
{
    lemma_name_index_from(s, name, 0);
}

/// Regions with the same bases and lengths are looked up alike.
pub proof fn lemma_region_index_same_layout(s: MapsView, t: MapsView, addr: int)
    requires
        s.len() == t.len(),
        forall|i: int|
            0 <= i < s.len() ==> s[i].1.base == #[trigger] t[i].1.base && s[i].1.bytes.len()
                == t[i].1.bytes.len(),
    ensures
        region_index(s, addr) == region_index(t, addr),
{
    lemma_region_index(s, addr);
    lemma_region_index(t, addr);
    match region_index(s, addr) {
        Some(i) => {
            assert(t[i].1.holds(addr));
            match region_index(t, addr) {
                Some(j) => {
                    if j < i {
                        assert(s[j].1.holds(addr));
                    }
                },
                None => {},
            }
        },
        None => {
            match region_index(t, addr) {
                Some(j) => {
                    assert(s[j].1.holds(addr));
                },
                None => {},
            }
        },
    }
}

/// Storing bytes changes no region's place or size.
pub proof fn lemma_store_keeps_layout(s: MapsView, addr: int, data: Seq<u8>)
    ensures
        store_at(s, addr, data).len() == s.len(),
        forall|i: int|
            0 <= i < s.len() ==> #[trigger] store_at(s, addr, data)[i].1.base == s[i].1.base
                && store_at(s, addr, data)[i].1.bytes.len() == s[i].1.bytes.len()
                && store_at(s, addr, data)[i].0 == s[i].0,
        forall|a: int| region_index(store_at(s, addr, data), a) == region_index(s, a),
        maps_wf(s) ==> maps_wf(store_at(s, addr, data)),
{
    lemma_region_index(s, addr);
    assert forall|a: int| region_index(store_at(s, addr, data), a) == region_index(s, a) by {
        lemma_region_index_same_layout(store_at(s, addr, data), s, a);
    }
}

/// Putting a region that ends below 4 GiB in place of the region of the same name
/// keeps the regions well formed.
pub proof fn lemma_wf_replace(s: MapsView, i: int, r: MemRegion)
    requires
        maps_wf(s),
        0 <= i < s.len(),
        r.bottom() <= u32::MAX,
    ensures
        maps_wf(s.update(i, (s[i].0, r))),
{
}

/// Adding a region under a new name that ends below 4 GiB keeps the regions well formed.
pub proof fn lemma_wf_push(s: MapsView, name: Seq<char>, r: MemRegion)
    requires
        maps_wf(s),
        name_index(s, name) is None,
        r.bottom() <= u32::MAX,
    ensures
        maps_wf(s.push((name, r))),
{
    lemma_name_index(s, name);
    let t = s.push((name, r));
    assert forall|i: int, j: int| 0 <= i < t.len() && 0 <= j < t.len() && i != j implies t[i].0
        != t[j].0 by {
        if i == s.len() {
            assert(s[j].0 != name);
        } else if j == s.len() {
            assert(s[i].0 != name);
        }
    }
}

/// A mapped address is never the highest 32-bit address.
pub proof fn lemma_mapped_below_top(s: MapsView, addr: int)
    requires
        maps_wf(s),
        is_mapped_spec(s, addr),
    ensures
        addr < u32::MAX,
{
    lemma_region_index(s, addr);
    let i = region_index(s, addr)->0;
    assert(s[i].1.bottom() <= u32::MAX);
}

/// The regions after copying `n` bytes one at a time from `from` to `to`, and
/// whether every byte was copied; the copy stops at the first byte that cannot be
/// read or written, leaving what was copied before it.
pub open spec fn copy_run(s: MapsView, to: int, from: int, n: nat) -> (MapsView, bool)
    decreases n,
{
    if n == 0 {
        (s, true)
    } else {
        let prev = copy_run(s, to, from, (n - 1) as nat);
        let k = n - 1;
        if !prev.1 {
            prev
        } else {
            match byte_at(prev.0, from + k) {
                None => (prev.0, false),
                Some(b) => if is_mapped_spec(prev.0, to + k) {
                    (store_at(prev.0, to + k, seq![b]), true)
                } else {
                    (prev.0, false)
                },
            }
        }
    }
}

/// Once a copy has stopped, copying further bytes changes nothing.
pub proof fn lemma_copy_run_stops(s: MapsView, to: int, from: int, n: nat, m: nat)
    requires
        n <= m,
        !copy_run(s, to, from, n).1,
    ensures
        copy_run(s, to, from, m) == copy_run(s, to, from, n),
    decreases m,
{
    if m > n {
        lemma_copy_run_stops(s, to, from, n, (m - 1) as nat);
    }
}

/// Total number of bytes held by the regions.
pub open spec fn total_size(s: MapsView) -> nat
    decreases s.len(),
{
    if s.len() == 0 {
        0
    } else {
        total_size(s.drop_last()) + s.last().1.bytes.len()
    }
}

/// The regions before position `i` hold no more bytes than all of them.
pub proof fn lemma_total_size_prefix(s: MapsView, i: int)
    requires
        0 <= i <= s.len(),
    ensures
        total_size(s.take(i)) <= total_size(s),
    decreases s.len(),
{
    if i == s.len() {
        assert(s.take(i) =~= s);
    } else {
        lemma_total_size_prefix(s.drop_last(), i);
        assert(s.drop_last().take(i) =~= s.take(i));
    }
}

/// The bytes `Maps::read_bytes` gives for `addr` and `sz`.
pub open spec fn bytes_at(s: MapsView, addr: int, sz: int) -> Seq<u8> {
    match region_index(s, addr) {
        Some(i) => s[i].1.bytes_from(addr, sz),
        None => Seq::empty(),
    }
}

/// The lower-case hexadecimal digit for `d`, which is below 16.
pub open spec fn hex_digit(d: int) -> char {
    if d < 10 {
        (48 + d) as char
    } else {
        (87 + d) as char
    }
}

/// Each byte as two lower-case hexadecimal digits followed by a space.
pub open spec fn hex_listing(b: Seq<u8>) -> Seq<char>
    decreases b.len(),
{
    if b.len() == 0 {
        Seq::empty()
    } else {
        hex_listing(b.drop_last()) + seq![
            hex_digit(b.last() as int / 16),
            hex_digit(b.last() as int % 16),
            ' ',
        ]
    }
}

/// The bytes from `a` on, as characters, up to the first zero byte or the first
/// address no region holds.
pub open spec fn string_from(s: MapsView, a: int) -> Seq<char>
    decreases u32::MAX - a,
{
    if a < 0 || a >= u32::MAX {
        Seq::empty()
    } else {
        match byte_at(s, a) {
            Some(b) => if b != 0 {
                seq![b as char] + string_from(s, a + 1)
            } else {
                Seq::empty()
            },
            None => Seq::empty(),
        }
    }
}

/// The low bytes of the 16-bit units from `a` on, as characters, up to the first
/// zero one or the first address no region holds.
pub open spec fn wide_from(s: MapsView, a: int) -> Seq<char>
    decreases u32::MAX - a,
{
    if a < 0 || a > u32::MAX {
        Seq::empty()
    } else {
        match byte_at(s, a) {
            Some(b) => if b == 0 {
                Seq::empty()
            } else if a + 2 <= u32::MAX {
                seq![b as char] + wide_from(s, a + 2)
            } else {
                seq![b as char]
            },
            None => Seq::empty(),
        }
    }
}

/// Reading a wide string from `a` on would step past the top of the address space:
/// the units up to the top are all mapped and not zero.
pub open spec fn wide_overruns(s: MapsView, a: int) -> bool
    decreases u32::MAX - a,
{
    if a < 0 || a > u32::MAX {
        false
    } else {
        match byte_at(s, a) {
            Some(b) => if b == 0 {
                false
            } else if a + 2 > u32::MAX {
                true
            } else {
                wide_overruns(s, a + 2)
            },
            None => false,
        }
    }
}

/// The bytes of up to `n` consecutive double words from `a` on, stopping at the
/// first that no region holds.
pub open spec fn dump_from(s: MapsView, a: int, n: nat) -> Seq<u8>
    decreases n,
{
    if n == 0 {
        Seq::empty()
    } else {
        match dword_at(s, a) {
            None => Seq::empty(),
            Some(d) => dword_bytes(d) + dump_from(s, a + 4, (n - 1) as nat),
        }
    }
}

/// Each of those double words that is reached lies wholly inside its region.
pub open spec fn dump_fits(s: MapsView, a: int, n: nat) -> bool
    decreases n,
{
    n == 0 || match region_index(s, a) {
        None => true,
        Some(i) => s[i].1.fits(a, 4) && dump_fits(s, a + 4, (n - 1) as nat),
    }
}

/// The `k`-th multiple of `sz`.
pub open spec fn multiple(sz: u32, k: int) -> int {
    k * sz
}

/// Lowest address that `Maps::allocate` never hands out.
pub const ALLOC_LIMIT: u32 = 0x7000_0000;

/// `pat` lies at `a`, wholly inside the region.
pub open spec fn matches_at(r: MemRegion, a: int, pat: Seq<u8>) -> bool {
    r.fits(a, pat.len() as int) && r.bytes.subrange(a - r.base, a - r.base + pat.len()) == pat
}

/// The addresses among the region's first `n` at which `pat` lies, in increasing order.
pub open spec fn match_list(r: MemRegion, pat: Seq<u8>, n: nat) -> Seq<u32>
    decreases n,
{
    if n == 0 {
        Seq::empty()
    } else {
        match_list(r, pat, (n - 1) as nat) + if matches_at(r, r.base + n - 1, pat) {
            seq![(r.base + n - 1) as u32]
        } else {
            Seq::empty()
        }
    }
}

/// Every address of the region at which `pat` lies, in increasing order.
pub open spec fn matches_in(r: MemRegion, pat: Seq<u8>) -> Seq<u32> {
    match_list(r, pat, r.bytes.len())
}

/// No tail of the region is a proper beginning of `pat`, so comparing `pat` byte by
/// byte at each address of the region never reads past the region's end.
pub open spec fn no_overrun(r: MemRegion, pat: Seq<u8>) -> bool {
    forall|a: int|
        #[trigger] r.holds(a) && r.bottom() - a < pat.len() ==> r.bytes.subrange(
            a - r.base,
            r.bytes.len() as int,
        ) != pat.subrange(0, r.bottom() - a)
}

/// The named region, if there is one, can be scanned for `pat`.
pub open spec fn named_no_overrun(s: MapsView, name: Seq<char>, pat: Seq<u8>) -> bool {
    match name_index(s, name) {
        Some(i) => no_overrun(s[i].1, pat),
        None => true,
    }
}

/// Every region can be scanned for `pat`.
pub open spec fn all_no_overrun(s: MapsView, pat: Seq<u8>) -> bool {
    forall|i: int| 0 <= i < s.len() ==> no_overrun(#[trigger] s[i].1, pat)
}

/// What a search of the region named `name` for `pat` gives: the addresses at which
/// `pat` lies, or `MapNotFound` when no region has that name.
pub open spec fn bytes_search(s: MapsView, pat: Seq<u8>, name: Seq<char>) -> Result<
    Seq<u32>,
    SearchError,
> {
    match name_index(s, name) {
        Some(i) => Ok(matches_in(s[i].1, pat)),
        None => Err(SearchError::MapNotFound),
    }
}

/// What a search of the region named `name` for the UTF-8 bytes of `kw` gives.
pub open spec fn string_search(s: MapsView, kw: Seq<char>, name: Seq<char>) -> Result<
    Seq<u32>,
    SearchError,
> {
    bytes_search(s, encode_utf8(kw), name)
}

/// What a search of the region named `name` for the space-separated hexadecimal
/// bytes of `sbs` gives: `BadHex` when a piece is not a byte.
pub open spec fn spaced_search(s: MapsView, sbs: Seq<char>, name: Seq<char>) -> Result<
    Seq<u32>,
    SearchError,
> {
    match all_bytes(spaced_hex(sbs)) {
        None => Err(SearchError::BadHex),
        Some(p) => bytes_search(s, p, name),
    }
}

/// A search's result with its addresses as a sequence.
pub open spec fn search_view(r: Result<Vec<u32>, SearchError>) -> Result<Seq<u32>, SearchError> {
    match r {
        Ok(v) => Ok(v@),
        Err(e) => Err(e),
    }
}

/// Storing one byte at an address, then another there, is storing the second.
pub proof fn lemma_store_byte_twice(s: MapsView, a: int, x: u8, y: u8)
    ensures
        store_at(store_at(s, a, seq![x]), a, seq![y]) == store_at(s, a, seq![y]),
{
    lemma_store_keeps_layout(s, a, seq![x]);
    lemma_region_index(s, a);
    match region_index(s, a) {
        Some(i) => {
            let r = s[i].1;
            assert(r.store(a, seq![x]).store(a, seq![y]) =~= r.store(a, seq![y]));
            assert(store_at(store_at(s, a, seq![x]), a, seq![y]) =~= store_at(s, a, seq![y]));
        },
        None => {},
    }
}

/// Why a search could not be made.
#[derive(Debug, Clone, Copy, PartialEq, Eq, Structural)]
pub enum SearchError {
    /// No region has the name asked for.
    MapNotFound,
    /// A piece of the byte list is not a hexadecimal byte.
    BadHex,
}

/// The addresses in `m` at which `pat` lies, in increasing order.
fn search_region(m: &Mem32, pat: &[u8]) -> (r: Vec<u32>)
    requires
        no_overrun(m@, pat@),
    ensures
        r@ == matches_in(m@, pat@),
{
    let base = m.get_base();
    let bottom = m.get_bottom();
    let mut out: Vec<u32> = Vec::new();
    let mut addr: u32 = base;
    while addr < bottom
        invariant
            base == m@.base,
            bottom == m@.bottom(),
            base <= addr <= bottom,
            no_overrun(m@, pat@),
            out@ == match_list(m@, pat@, (addr - base) as nat),
        decreases bottom - addr,
    {
        let mut c: usize = 0;
        let mut matching = true;
        while c < pat.len() && matching
            invariant
                base == m@.base,
                bottom == m@.bottom(),
                base <= addr < bottom,
                no_overrun(m@, pat@),
                c <= pat@.len(),
                forall|j: int| 0 <= j < c ==> #[trigger] m@.holds(addr + j) && m@.byte_at(addr + j) == pat@[j],
                !matching ==> c < pat@.len() && m@.holds(addr + c) && m@.byte_at(addr + c) != pat@[c as int],
            decreases pat@.len() - c + if matching { 1int } else { 0int },
        {
            proof {
                if !m@.holds(addr + c) {
                    if c > 0 {
                        assert(m@.holds(addr + (c - 1)));
                    }
                    assert(m@.holds(addr as int));
                    assert(m@.bytes.subrange(addr - base, m@.bytes.len() as int) =~= pat@.subrange(0, bottom - addr)) by {
                        assert forall|j: int| 0 <= j < bottom - addr implies #[trigger] m@.bytes.subrange(addr - base, m@.bytes.len() as int)[j] == pat@.subrange(0, bottom - addr)[j] by {
                            assert(m@.holds(addr + j));
                        }
                    }
                    assert(false);
                }
            }
            assert(addr + c < bottom);
            let b = m.read_byte(addr + c as u32);
            assert(b == m@.byte_at(addr + c));
            if b == pat[c] {
                c = c + 1;
            } else {
                matching = false;
            }
        }
        proof {
            let off = (addr - base) as nat;
            assert(match_list(m@, pat@, off + 1) == match_list(m@, pat@, off) + if matches_at(m@, base + off, pat@) {
                seq![(base + off) as u32]
            } else {
                Seq::empty()
            });
            if matching {
                if pat@.len() > 0 {
                    assert(m@.holds(addr + (pat@.len() - 1)));
                }
                assert forall|j: int| 0 <= j < pat@.len() implies #[trigger] m@.bytes.subrange(
                    addr - base,
                    addr - base + pat@.len(),
                )[j] == pat@[j] by {
                    assert(m@.holds(addr + j));
                }
                assert(m@.bytes.subrange(addr - base, addr - base + pat@.len()) =~= pat@);
            } else {
                if matches_at(m@, base + off, pat@) {
                    assert(m@.bytes.subrange(addr - base, addr - base + pat@.len())[c as int]
                        == m@.byte_at(addr + c));
                }
            }
        }
        if matching {
            out.push(addr);
        }
        addr = addr + 1;
    }
    out
}

/// Whether `pat` can be compared byte by byte at every address of `m` without
/// reading past its end.
fn scan_stays_inside(m: &Mem32, pat: &[u8]) -> (r: bool)
    ensures
        r == no_overrun(m@, pat@),
{
    let base = m.get_base();
    let bottom = m.get_bottom();
    let len = pat.len();
    if len == 0 {
        return true;
    }
    let mut a: u32 = if (bottom - base) as usize >= len {
        bottom - (len - 1) as u32
    } else {
        base
    };
    while a < bottom
        invariant
            base == m@.base,
            bottom == m@.bottom(),
            base <= a <= bottom,
            bottom - a < len,
            len == pat@.len(),
            len >= 1,
            forall|x: int|
                #[trigger] m@.holds(x) && x < a && m@.bottom() - x < pat@.len() ==> m@.bytes.subrange(
                    x - m@.base,
                    m@.bytes.len() as int,
                ) != pat@.subrange(0, m@.bottom() - x),
        decreases bottom - a,
    {
        let tail = (bottom - a) as usize;
        let mut j: usize = 0;
        let mut same = true;
        while j < tail && same
            invariant
                base == m@.base,
                bottom == m@.bottom(),
                base <= a < bottom,
                tail == bottom - a,
                tail < len,
                len == pat@.len(),
                j <= tail,
                forall|k: int| 0 <= k < j ==> m@.bytes[a - base + k] == #[trigger] pat@[k],
                !same ==> j < tail && m@.bytes[a - base + j] != pat@[j as int],
            decreases tail - j + if same { 1int } else { 0int },
        {
            let b = m.read_byte(a + j as u32);
            if b != pat[j] {
                same = false;
            } else {
                j = j + 1;
            }
        }
        if same {
            assert forall|k: int| 0 <= k < tail implies #[trigger] m@.bytes.subrange(
                a - base,
                m@.bytes.len() as int,
            )[k] == pat@.subrange(0, tail as int)[k] by {
                assert(m@.bytes[a - base + k] == pat@[k]);
            }
            assert(m@.bytes.subrange(a - base, m@.bytes.len() as int) =~= pat@.subrange(0, tail as int));
            assert(m@.holds(a as int));
            return false;
        }
        proof {
            assert(m@.bytes.subrange(a - base, m@.bytes.len() as int)[j as int] != pat@.subrange(0, tail as int)[j as int]);
        }
        a = a + 1;
    }
    true
}

/// The named memory regions of an emulated 32-bit process, kept in the order they
/// were created. Regions may overlap; an address is read and written in the first
/// region, in that order, that holds it.
pub struct Maps {
    maps: Vec<(String, Mem32)>,
}

impl View for Maps {
    type V = MapsView;

    closed spec fn view(&self) -> MapsView {
        self.maps@.map_values(|p: (String, Mem32)| (p.0@, p.1@))
    }
}

impl Maps {
    /// The regions' names are distinct and every region ends below 4 GiB.
    pub open spec fn wf(&self) -> bool {
        maps_wf(self@)
    }

    /// No regions.
    pub fn new() -> (m: Maps)
        ensures
            m@.len() == 0,
            m.wf(),
    {
        let m = Maps { maps: Vec::new() };
        assert(m@ =~= Seq::empty());
        m
    }

    /// Number of regions.
    pub fn len(&self) -> (n: usize)
        ensures
            n == self@.len(),
    {
        self.maps.len()
    }

    /// Name, first address and end of each region, in order: what a listing of the
    /// maps shows.
    pub fn maps_summary(&self) -> (r: Vec<(String, u32, u32)>)
        ensures
            r@.len() == self@.len(),
            forall|i: int|
                0 <= i < self@.len() ==> (#[trigger] r@[i]).0@ == self@[i].0 && r@[i].1
                    == self@[i].1.base && r@[i].2 == self@[i].1.bottom(),
    {
        let mut out: Vec<(String, u32, u32)> = Vec::new();
        let mut i: usize = 0;
        while i < self.maps.len()
            invariant
                i <= self.maps@.len(),
                out@.len() == i,
                forall|j: int|
                    0 <= j < i ==> (#[trigger] out@[j]).0@ == self@[j].0 && out@[j].1
                        == self@[j].1.base && out@[j].2 == self@[j].1.bottom(),
            decreases self.maps@.len() - i,
        {
            let entry = &self.maps[i];
            assert(self@[i as int] == (entry.0@, entry.1@));
            out.push((entry.0.clone(), entry.1.get_base(), entry.1.get_bottom()));
            i = i + 1;
        }
        out
    }

    /// Whether the region that holds `addr`, if any, also holds the `n - 1`
    /// addresses after it: what reading or writing `n` bytes there needs.
    pub fn has_room(&self, addr: u32, n: u32) -> (r: bool)
        ensures
            r == room_at(self@, addr as int, n as int),
    {
        match self.get_mem_by_addr(addr) {
            Some(m) => {
                proof {
                    lemma_region_index(self@, addr as int);
                }
                m.get_bottom() - addr >= n
            },
            None => true,
        }
    }

    /// Whether `pat` can be searched for in the region named `map_name` without
    /// reading past its end.
    pub fn scan_stays_in_map(&self, pat: &[u8], map_name: &String) -> (r: bool)
        ensures
            r == named_no_overrun(self@, map_name@, pat@),
    {
        proof {
            lemma_name_index(self@, map_name@);
        }
        match self.find_name(map_name) {
            Some(i) => {
                assert(self@[i as int].1 == self.maps@[i as int].1@);
                scan_stays_inside(&self.maps[i].1, pat)
            },
            None => true,
        }
    }

    /// Whether `pat` can be searched for in every region without reading past its end.
    pub fn scan_stays_in_all(&self, pat: &[u8]) -> (r: bool)
        ensures
            r == all_no_overrun(self@, pat@),
    {
        let mut i: usize = 0;
        while i < self.maps.len()
            invariant
                i <= self.maps@.len(),
                forall|j: int| 0 <= j < i ==> no_overrun(#[trigger] self@[j].1, pat@),
            decreases self.maps@.len() - i,
        {
            assert(self@[i as int].1 == self.maps@[i as int].1@);
            if !scan_stays_inside(&self.maps[i].1, pat) {
                return false;
            }
            i = i + 1;
        }
        true
    }

    /// Whether each of the 32 double words `dump` would read from `addr` on lies wholly
    /// inside its region.
    pub fn dump_stays_inside(&self, addr: u32) -> (r: bool)
        requires
            self.wf(),
        ensures
            r == dump_fits(self@, addr as int, 32),
    {
        let mut cur: u32 = addr;
        let mut count: u32 = 0;
        while count < 32
            invariant
                self.wf(),
                count <= 32,
                dump_fits(self@, addr as int, 32) == dump_fits(
                    self@,
                    cur as int,
                    (32 - count) as nat,
                ),
            decreases 32 - count,
        {
            proof {
                lemma_region_index(self@, cur as int);
            }
            match self.get_mem_by_addr(cur) {
                None => {
                    return true;
                },
                Some(m) => {
                    if m.get_bottom() - cur < 4 {
                        return false;
                    }
                },
            }
            cur = cur + 4;
            count = count + 1;
        }
        true
    }

    /// Position of the first region that holds `addr`.
    fn find_index(&self, addr: u32) -> (r: Option<usize>)
        ensures
            r matches Some(i) ==> region_index(self@, addr as int) == Some(i as int),
            r is None ==> region_index(self@, addr as int) is None,
    {
        let mut i: usize = 0;
        while i < self.maps.len()
            invariant
                0 <= i <= self.maps@.len(),
                region_index(self@, addr as int) == region_index_from(self@, addr as int, i as int),
            decreases self.maps@.len() - i,
        {
            if self.maps[i].1.inside(addr) {
                return Some(i);
            }
            i = i + 1;
        }
        None
    }

    /// Position of the region named `name`.
    fn find_name(&self, name: &String) -> (r: Option<usize>)
        ensures
            r matches Some(i) ==> name_index(self@, name@) == Some(i as int),
            r is None ==> name_index(self@, name@) is None,
    {
        let mut i: usize = 0;
        while i < self.maps.len()
            invariant
                0 <= i <= self.maps@.len(),
                name_index(self@, name@) == name_index_from(self@, name@, i as int),
            decreases self.maps@.len() - i,
        {
            if self.maps[i].0 == *name {
                return Some(i);
            }
            i = i + 1;
        }
        None
    }

    /// Adds an empty region at address 0 named `name`, replacing a region of the
    /// same name if there is one, and hands it out for setting up.
    pub fn create_map(&mut self, name: &str) -> (m: &mut Mem32)
        requires
            old(self).wf(),
        ensures
            m@.base == 0,
            m@.bytes.len() == 0,
            match name_index(old(self)@, name@) {
                Some(i) => final(self)@ == old(self)@.update(i, (name@, final(m)@)),
                None => final(self)@ == old(self)@.push((name@, final(m)@)),
            },
    {
        let key: String = name.to_owned();
        proof {
            lemma_name_index(self@, name@);
        }
        match self.find_name(&key) {
            Some(i) => {
                assert(self@[i as int].0 == name@);
                let entry = &mut self.maps[i];
                entry.1 = Mem32::new();
                &mut entry.1
            },
            None => {
                self.maps.push((key, Mem32::new()));
                let last = self.maps.len() - 1;
                let entry = &mut self.maps[last];
                &mut entry.1
            },
        }
    }
    /// The region named `name`, handed out for changes.
    pub fn get_mem(&mut self, name: &str) -> (m: &mut Mem32)
        requires
            old(self).wf(),
            name_index(old(self)@, name@) is Some,
        ensures
            ({
                let i = name_index(old(self)@, name@)->0;
                &&& m@ == old(self)@[i].1
                &&& final(self)@ == old(self)@.update(i, (name@, final(m)@))
            }),
    {
        let key: String = name.to_owned();
        proof {
            lemma_name_index(self@, name@);
        }
        let i = match self.find_name(&key) {
            Some(i) => i,
            None => {
                proof {
                    assert(false);
                }
                0
            },
        };
        assert(self@[i as int].0 == name@);
        let entry = &mut self.maps[i];
        &mut entry.1
    }

    /// The region that holds `addr`.
    pub fn get_mem_by_addr(&self, addr: u32) -> (r: Option<&Mem32>)
        ensures
            match region_index(self@, addr as int) {
                Some(i) => r matches Some(m) && m@ == self@[i].1,
                None => r is None,
            },
    {
        match self.find_index(addr) {
            Some(i) => {
                proof {
                    lemma_region_index(self@, addr as int);
                }
                assert(self@[i as int].1 == self.maps@[i as int].1@);
                Some(&self.maps[i].1)
            },
            None => None,
        }
    }

    /// Whether some region holds `addr`.
    pub fn is_mapped(&self, addr: u32) -> (r: bool)
        ensures
            r == is_mapped_spec(self@, addr as int),
    {
        self.find_index(addr).is_some()
    }

    /// Name of the region that holds `addr`.
    pub fn get_addr_name(&self, addr: u32) -> (r: Option<String>)
        ensures
            match region_index(self@, addr as int) {
                Some(i) => r matches Some(n) && n@ == self@[i].0,
                None => r is None,
            },
    {
        match self.find_index(addr) {
            Some(i) => {
                proof {
                    lemma_region_index(self@, addr as int);
                }
                assert(self@[i as int].0 == self.maps@[i as int].0@);
                Some(self.maps[i].0.clone())
            },
            None => None,
        }
    }

    /// The byte at `addr`, if a region holds it.
    pub fn read_byte(&self, addr: u32) -> (r: Option<u8>)
        ensures
            r == byte_at(self@, addr as int),
    {
        match self.find_index(addr) {
            Some(i) => {
                proof {
                    lemma_region_index(self@, addr as int);
                }
                assert(self@[i as int].1 == self.maps@[i as int].1@);
                Some(self.maps[i].1.read_byte(addr))
            },
            None => None,
        }
    }

    /// The little-endian word at `addr`, if a region holds `addr`.
    pub fn read_word(&self, addr: u32) -> (r: Option<u16>)
        requires
            room_at(self@, addr as int, 2),
        ensures
            r == word_at(self@, addr as int),
    {
        match self.find_index(addr) {
            Some(i) => {
                proof {
                    lemma_region_index(self@, addr as int);
                }
                assert(self@[i as int].1 == self.maps@[i as int].1@);
                Some(self.maps[i].1.read_word(addr))
            },
            None => None,
        }
    }

    /// The little-endian double word at `addr`, if a region holds `addr`.
    pub fn read_dword(&self, addr: u32) -> (r: Option<u32>)
        requires
            room_at(self@, addr as int, 4),
        ensures
            r == dword_at(self@, addr as int),
    {
        match self.find_index(addr) {
            Some(i) => {
                proof {
                    lemma_region_index(self@, addr as int);
                }
                assert(self@[i as int].1 == self.maps@[i as int].1@);
                Some(self.maps[i].1.read_dword(addr))
            },
            None => None,
        }
    }

    /// Stores `value` at `addr`; `false`, with nothing changed, when no region holds `addr`.
    pub fn write_byte(&mut self, addr: u32, value: u8) -> (r: bool)
        requires
            old(self).wf(),
        ensures
            r == is_mapped_spec(old(self)@, addr as int),
            final(self)@ == store_at(old(self)@, addr as int, seq![value]),
            final(self).wf(),
    {
        proof {
            lemma_region_index(self@, addr as int);
            lemma_store_keeps_layout(self@, addr as int, seq![value]);
        }
        match self.find_index(addr) {
            Some(i) => {
                assert(self@[i as int].1 == self.maps@[i as int].1@);
                self.maps[i].1.write_byte(addr, value);
                assert(self@ =~= store_at(old(self)@, addr as int, seq![value]));
                true
            },
            None => false,
        }
    }

    /// Stores `value` at `addr`, least significant byte first; `false`, with nothing
    /// changed, when no region holds `addr`.
    pub fn write_word(&mut self, addr: u32, value: u16) -> (r: bool)
        requires
            old(self).wf(),
            room_at(old(self)@, addr as int, 2),
        ensures
            r == is_mapped_spec(old(self)@, addr as int),
            final(self)@ == store_at(old(self)@, addr as int, word_bytes(value)),
            final(self).wf(),
    {
        proof {
            lemma_region_index(self@, addr as int);
            lemma_store_keeps_layout(self@, addr as int, word_bytes(value));
        }
        match self.find_index(addr) {
            Some(i) => {
                assert(self@[i as int].1 == self.maps@[i as int].1@);
                self.maps[i].1.write_word(addr, value);
                assert(self@ =~= store_at(old(self)@, addr as int, word_bytes(value)));
                true
            },
            None => false,
        }
    }

    /// Stores `value` at `addr`, least significant byte first; `false`, with nothing
    /// changed, when no region holds `addr`.
    pub fn write_dword(&mut self, addr: u32, value: u32) -> (r: bool)
        requires
            old(self).wf(),
            room_at(old(self)@, addr as int, 4),
        ensures
            r == is_mapped_spec(old(self)@, addr as int),
            final(self)@ == store_at(old(self)@, addr as int, dword_bytes(value)),
            final(self).wf(),
    {
        proof {
            lemma_region_index(self@, addr as int);
            lemma_store_keeps_layout(self@, addr as int, dword_bytes(value));
        }
        match self.find_index(addr) {
            Some(i) => {
                assert(self@[i as int].1 == self.maps@[i as int].1@);
                self.maps[i].1.write_dword(addr, value);
                assert(self@ =~= store_at(old(self)@, addr as int, dword_bytes(value)));
                true
            },
            None => false,
        }
    }
    /// Copies `size` bytes from `from` to `to` one at a time, in increasing order;
    /// `false` as soon as a byte cannot be read or written.
    pub fn memcpy(&mut self, to: u32, from: u32, size: usize) -> (r: bool)
        requires
            old(self).wf(),
        ensures
            (final(self)@, r) == copy_run(old(self)@, to as int, from as int, size as nat),
            final(self).wf(),
    {
        let mut i: usize = 0;
        while i < size
            invariant
                self.wf(),
                i <= size,
                (self@, true) == copy_run(old(self)@, to as int, from as int, i as nat),
                i > 0 ==> from + i <= u32::MAX && to + i <= u32::MAX,
            decreases size - i,
        {
            let ghost before = self@;
            let b = match self.read_byte(from + i as u32) {
                Some(v) => v,
                None => {
                    proof {
                        lemma_copy_run_stops(
                            old(self)@,
                            to as int,
                            from as int,
                            (i + 1) as nat,
                            size as nat,
                        );
                    }
                    return false;
                },
            };
            proof {
                lemma_mapped_below_top(self@, from + i);
            }
            if !self.write_byte(to + i as u32, b) {
                proof {
                    lemma_copy_run_stops(
                        old(self)@,
                        to as int,
                        from as int,
                        (i + 1) as nat,
                        size as nat,
                    );
                }
                return false;
            }
            proof {
                lemma_mapped_below_top(before, to + i);
            }
            i = i + 1;
        }
        true
    }

    /// Total number of bytes held by all regions.
    pub fn size(&self) -> (n: usize)
        requires
            total_size(self@) <= usize::MAX,
        ensures
            n == total_size(self@),
    {
        let mut sz: usize = 0;
        let mut i: usize = 0;
        while i < self.maps.len()
            invariant
                i <= self.maps@.len(),
                total_size(self@) <= usize::MAX,
                sz == total_size(self@.take(i as int)),
            decreases self.maps@.len() - i,
        {
            proof {
                lemma_total_size_prefix(self@, i + 1);
                assert(self@.take(i + 1).drop_last() =~= self@.take(i as int));
                assert(self@[i as int].1 == self.maps@[i as int].1@);
            }
            sz = sz + self.maps[i].1.size();
            i = i + 1;
        }
        assert(self@.take(i as int) =~= self@);
        sz
    }

    /// The `sz` bytes from `addr` on in the region that holds `addr`; empty when no
    /// region holds it or the bytes run past that region's end.
    pub fn read_bytes(&self, addr: u32, sz: usize) -> (r: &[u8])
        ensures
            r@ == bytes_at(self@, addr as int, sz as int),
    {
        match self.get_mem_by_addr(addr) {
            Some(m) => {
                proof {
                    lemma_region_index(self@, addr as int);
                }
                m.read_bytes(addr, sz)
            },
            None => &[],
        }
    }

    /// The bytes of `read_bytes` written as two lower-case hexadecimal digits and a
    /// space each.
    pub fn read_string_of_bytes(&self, addr: u32, sz: usize) -> (r: String)
        ensures
            r@ == hex_listing(bytes_at(self@, addr as int, sz as int)),
    {
        let bytes = self.read_bytes(addr, sz);
        let mut out = String::new();
        let mut i: usize = 0;
        while i < bytes.len()
            invariant
                i <= bytes@.len(),
                bytes@ == bytes_at(self@, addr as int, sz as int),
                out@ == hex_listing(bytes@.take(i as int)),
            decreases bytes@.len() - i,
        {
            let b = bytes[i];
            let hi = b / 16;
            let lo = b % 16;
            push_char(&mut out, if hi < 10 { (48 + hi) as char } else { (87 + hi) as char });
            push_char(&mut out, if lo < 10 { (48 + lo) as char } else { (87 + lo) as char });
            push_char(&mut out, ' ');
            assert(bytes@.take(i + 1).drop_last() =~= bytes@.take(i as int));
            i = i + 1;
        }
        assert(bytes@.take(i as int) =~= bytes@);
        out
    }

    /// The bytes from `addr` on, as characters, up to the first zero byte or the
    /// first address no region holds.
    pub fn read_string(&self, addr: u32) -> (r: String)
        requires
            self.wf(),
        ensures
            r@ == string_from(self@, addr as int),
    {
        let mut out = String::new();
        let mut i: u32 = 0;
        loop
            invariant
                self.wf(),
                addr + i <= u32::MAX,
                out@ + string_from(self@, addr + i) == string_from(self@, addr as int),
            decreases u32::MAX - addr - i,
        {
            let b = match self.read_byte(addr + i) {
                Some(v) => v,
                None => {
                    assert(out@ + Seq::<char>::empty() =~= out@);
                    return out;
                },
            };
            if b == 0 {
                assert(out@ + Seq::<char>::empty() =~= out@);
                return out;
            }
            proof {
                lemma_mapped_below_top(self@, addr + i);
                assert(out@.push(b as char) + string_from(self@, addr + i + 1) =~= out@ + string_from(self@, addr + i));
            }
            push_char(&mut out, b as char);
            i = i + 1;
        }
    }

    /// The low bytes of the 16-bit units from `addr` on, as characters, up to the
    /// first unit whose low byte is zero or the first address no region holds.
    pub fn read_wide_string(&self, addr: u32) -> (r: String)
        requires
            self.wf(),
            !wide_overruns(self@, addr as int),
        ensures
            r@ == wide_from(self@, addr as int),
    {
        let mut out = String::new();
        let mut i: u32 = 0;
        loop
            invariant
                self.wf(),
                addr + i <= u32::MAX,
                !wide_overruns(self@, addr + i),
                out@ + wide_from(self@, addr + i) == wide_from(self@, addr as int),
            decreases u32::MAX - addr - i,
        {
            let b = match self.read_byte(addr + i) {
                Some(v) => v,
                None => {
                    assert(out@ + Seq::<char>::empty() =~= out@);
                    return out;
                },
            };
            if b == 0 {
                assert(out@ + Seq::<char>::empty() =~= out@);
                return out;
            }
            proof {
                assert(out@.push(b as char) + wide_from(self@, addr + i + 2) =~= out@ + wide_from(self@, addr + i));
            }
            push_char(&mut out, b as char);
            i = i + 2;
        }
    }

    /// The bytes of up to 32 consecutive double words from `addr` on, stopping at the
    /// first one no region holds.
    pub fn dump(&self, addr: u32) -> (r: Vec<u8>)
        requires
            self.wf(),
            dump_fits(self@, addr as int, 32),
        ensures
            r@ == dump_from(self@, addr as int, 32),
    {
        let mut out: Vec<u8> = Vec::new();
        let mut cur: u32 = addr;
        let mut count: u32 = 0;
        while count < 32
            invariant
                count <= 32,
                out@ + dump_from(self@, cur as int, (32 - count) as nat) == dump_from(
                    self@,
                    addr as int,
                    32,
                ),
                dump_fits(self@, cur as int, (32 - count) as nat),
                self.wf(),
            decreases 32 - count,
        {
            proof {
                lemma_region_index(self@, cur as int);
            }
            let dw = match self.read_dword(cur) {
                Some(v) => v,
                None => {
                    assert(out@ + Seq::<u8>::empty() =~= out@);
                    return out;
                },
            };
            let ghost before = out@;
            out.push((dw % 256) as u8);
            out.push(((dw / 256) % 256) as u8);
            out.push(((dw / 65536) % 256) as u8);
            out.push((dw / 16777216) as u8);
            proof {
                let i = region_index(self@, cur as int)->0;
                assert(self@[i].1.bottom() <= u32::MAX);
                assert(out@ =~= before + dword_bytes(dw));
                assert(before + dump_from(self@, cur as int, (32 - count) as nat) =~= out@
                    + dump_from(self@, cur + 4, (32 - count - 1) as nat));
            }
            cur = cur + 4;
            count = count + 1;
        }
        assert(dump_from(self@, cur as int, 0) =~= Seq::<u8>::empty());
        assert(out@ + Seq::<u8>::empty() =~= out@);
        out
    }

    /// The first positive multiple of `sz` below `ALLOC_LIMIT` that no region holds.
    pub fn allocate(&self, sz: u32) -> (r: Option<u32>)
        requires
            sz == 0 ==> !is_mapped_spec(self@, 0),
        ensures
            match r {
                Some(a) => {
                    &&& a < ALLOC_LIMIT
                    &&& !is_mapped_spec(self@, a as int)
                    &&& exists|k: int|
                        k >= 1 && a == multiple(sz, k) && forall|j: int|
                            1 <= j < k ==> is_mapped_spec(self@, #[trigger] multiple(sz, j))
                },
                None => sz > 0 && forall|j: int|
                    j >= 1 && #[trigger] multiple(sz, j) < ALLOC_LIMIT ==> is_mapped_spec(
                        self@,
                        multiple(sz, j),
                    ),
            },
    {
        let mut addr: u32 = 0;
        let ghost mut k: int = 0;
        loop
            invariant
                k >= 0,
                addr == multiple(sz, k),
                addr < ALLOC_LIMIT,
                sz == 0 ==> !is_mapped_spec(self@, 0),
                forall|j: int| 1 <= j <= k ==> is_mapped_spec(self@, #[trigger] multiple(sz, j)),
            decreases ALLOC_LIMIT - addr,
        {
            proof {
                assert(multiple(sz, k + 1) == addr + sz) by (nonlinear_arith)
                    requires
                        addr == multiple(sz, k),
                ;
                if k == 0 || sz == 0 {
                    assert(addr == 0) by (nonlinear_arith)
                        requires
                            addr == k * sz,
                            k == 0 || sz == 0,
                    ;
                }
                if k >= 1 {
                    assert(addr >= sz) by (nonlinear_arith)
                        requires
                            addr == k * sz,
                            k >= 1,
                    ;
                }
            }
            addr = addr + sz;
            proof {
                k = k + 1;
            }
            if addr >= ALLOC_LIMIT {
                proof {
                    assert forall|j: int| j >= 1 && #[trigger] multiple(sz, j) < ALLOC_LIMIT implies is_mapped_spec(
                        self@,
                        multiple(sz, j),
                    ) by {
                        if j >= k {
                            assert(multiple(sz, j) >= multiple(sz, k)) by (nonlinear_arith)
                                requires
                                    j >= k,
                            ;
                        }
                    }
                }
                return None;
            }
            if !self.is_mapped(addr) {
                return Some(addr);
            }
        }
    }
    /// Addresses in the region named `map_name` at which the bytes of `bkw` lie.
    pub fn search_bytes(&self, bkw: Vec<u8>, map_name: &String) -> (r: Result<
        Vec<u32>,
        SearchError,
    >)
        requires
            named_no_overrun(self@, map_name@, bkw@),
        ensures
            search_view(r) == bytes_search(self@, bkw@, map_name@),
            match name_index(self@, map_name@) {
                Some(i) => r matches Ok(v) && v@ == matches_in(self@[i].1, bkw@),
                None => r == Err::<Vec<u32>, SearchError>(SearchError::MapNotFound),
            },
    {
        proof {
            lemma_name_index(self@, map_name@);
        }
        match self.find_name(map_name) {
            Some(i) => {
                assert(self@[i as int].1 == self.maps@[i as int].1@);
                Ok(search_region(&self.maps[i].1, bkw.as_slice()))
            },
            None => Err(SearchError::MapNotFound),
        }
    }

    /// Addresses in the region named `map_name` at which the UTF-8 bytes of `kw` lie.
    pub fn search_string(&self, kw: &String, map_name: &String) -> (r: Result<
        Vec<u32>,
        SearchError,
    >)
        requires
            named_no_overrun(self@, map_name@, encode_utf8(kw@)),
        ensures
            search_view(r) == string_search(self@, kw@, map_name@),
            match name_index(self@, map_name@) {
                Some(i) => r matches Ok(v) && v@ == matches_in(self@[i].1, encode_utf8(kw@)),
                None => r == Err::<Vec<u32>, SearchError>(SearchError::MapNotFound),
            },
    {
        proof {
            lemma_name_index(self@, map_name@);
        }
        let pat = kw.as_str().as_bytes();
        match self.find_name(map_name) {
            Some(i) => {
                assert(self@[i as int].1 == self.maps@[i as int].1@);
                Ok(search_region(&self.maps[i].1, pat))
            },
            None => Err(SearchError::MapNotFound),
        }
    }

    /// Reads `sbs` as space-separated hexadecimal bytes and searches the region named
    /// `map_name` for them.
    pub fn search_spaced_bytes(&self, sbs: &String, map_name: &String) -> (r: Result<
        Vec<u32>,
        SearchError,
    >)
        requires
            all_bytes(spaced_hex(sbs@)) matches Some(p) ==> named_no_overrun(
                self@,
                map_name@,
                p,
            ),
        ensures
            search_view(r) == spaced_search(self@, sbs@, map_name@),
            match all_bytes(spaced_hex(sbs@)) {
                None => r == Err::<Vec<u32>, SearchError>(SearchError::BadHex),
                Some(p) => match name_index(self@, map_name@) {
                    Some(i) => r matches Ok(v) && v@ == matches_in(self@[i].1, p),
                    None => r == Err::<Vec<u32>, SearchError>(SearchError::MapNotFound),
                },
            },
    {
        let toks = parse_spaced(sbs.as_str());
        match collect_bytes(&toks) {
            Some(bytes) => self.search_bytes(bytes, map_name),
            None => Err(SearchError::BadHex),
        }
    }

    /// For each region, in order, the addresses at which the space-separated
    /// hexadecimal bytes of `sbs` lie.
    pub fn search_space_bytes_in_all(&self, sbs: String) -> (r: Result<
        Vec<Vec<u32>>,
        SearchError,
    >)
        requires
            all_bytes(spaced_hex(sbs@)) matches Some(p) ==> all_no_overrun(self@, p),
        ensures
            self@.len() == 0 ==> (r matches Ok(v) && v@.len() == 0),
            self@.len() > 0 ==> match all_bytes(spaced_hex(sbs@)) {
                None => r == Err::<Vec<Vec<u32>>, SearchError>(SearchError::BadHex),
                Some(p) => (r matches Ok(v) && v@.len() == self@.len() && forall|i: int|
                    0 <= i < self@.len() ==> #[trigger] v@[i]@ == matches_in(self@[i].1, p)),
            },
            self.wf() ==> match r {
                Ok(v) => forall|i: int|
                    0 <= i < self@.len() ==> spaced_search(self@, sbs@, #[trigger] self@[i].0)
                        == Ok::<Seq<u32>, SearchError>(v@[i]@),
                Err(e) => forall|i: int|
                    0 <= i < self@.len() ==> spaced_search(self@, sbs@, #[trigger] self@[i].0)
                        == Err::<Seq<u32>, SearchError>(e),
            },
    {
        proof {
            if self.wf() {
                assert forall|i: int| 0 <= i < self@.len() implies name_index(
                    self@,
                    #[trigger] self@[i].0,
                ) == Some(i) by {
                    crate::emu32::maps::laws::law_each_map_found_by_its_name(self@, i);
                }
            }
        }
        let mut out: Vec<Vec<u32>> = Vec::new();
        if self.maps.len() == 0 {
            return Ok(out);
        }
        let toks = parse_spaced(sbs.as_str());
        let bytes = match collect_bytes(&toks) {
            Some(b) => b,
            None => {
                return Err(SearchError::BadHex);
            },
        };
        let mut i: usize = 0;
        while i < self.maps.len()
            invariant
                i <= self.maps@.len(),
                all_no_overrun(self@, bytes@),
                out@.len() == i,
                forall|j: int| 0 <= j < i ==> #[trigger] out@[j]@ == matches_in(self@[j].1, bytes@),
            decreases self.maps@.len() - i,
        {
            assert(self@[i as int].1 == self.maps@[i as int].1@);
            assert(no_overrun(self@[i as int].1, bytes@));
            let found = search_region(&self.maps[i].1, bytes.as_slice());
            out.push(found);
            i = i + 1;
        }
        Ok(out)
    }

    /// For each region, in order, the addresses at which the UTF-8 bytes of `kw` lie.
    pub fn search_string_in_all(&self, kw: String) -> (r: Vec<Vec<u32>>)
        requires
            all_no_overrun(self@, encode_utf8(kw@)),
        ensures
            r@.len() == self@.len(),
            forall|i: int|
                0 <= i < self@.len() ==> #[trigger] r@[i]@ == matches_in(self@[i].1, encode_utf8(kw@)),
            self.wf() ==> forall|i: int|
                0 <= i < self@.len() ==> string_search(self@, kw@, #[trigger] self@[i].0) == Ok::<
                    Seq<u32>,
                    SearchError,
                >(r@[i]@),
    {
        proof {
            if self.wf() {
                assert forall|i: int| 0 <= i < self@.len() implies name_index(
                    self@,
                    #[trigger] self@[i].0,
                ) == Some(i) by {
                    crate::emu32::maps::laws::law_each_map_found_by_its_name(self@, i);
                }
            }
        }
        let pat = kw.as_str().as_bytes();
        let mut out: Vec<Vec<u32>> = Vec::new();
        let mut i: usize = 0;
        while i < self.maps.len()
            invariant
                i <= self.maps@.len(),
                pat@ == encode_utf8(kw@),
                all_no_overrun(self@, pat@),
                out@.len() == i,
                forall|j: int| 0 <= j < i ==> #[trigger] out@[j]@ == matches_in(self@[j].1, pat@),
            decreases self.maps@.len() - i,
        {
            assert(self@[i as int].1 == self.maps@[i as int].1@);
            assert(no_overrun(self@[i as int].1, pat@));
            let found = search_region(&self.maps[i].1, pat);
            out.push(found);
            i = i + 1;
        }
        out
    }

    /// Reads `sbs` as space-separated hexadecimal bytes and stores each, in turn, at
    /// `addr`; `false` as soon as a store fails because no region holds `addr`.
    pub fn write_spaced_bytes(&mut self, addr: u32, sbs: String) -> (r: bool)
        requires
            old(self).wf(),
            is_mapped_spec(old(self)@, addr as int) ==> forall|k: int|
                0 <= k < spaced_hex(sbs@).len() ==> #[trigger] spaced_hex(sbs@)[k] is Some,
            spaced_hex(sbs@)[0] is Some,
        ensures
            r == is_mapped_spec(old(self)@, addr as int),
            r ==> final(self)@ == store_at(
                old(self)@,
                addr as int,
                seq![spaced_hex(sbs@).last()->0],
            ),
            !r ==> final(self)@ == old(self)@,
            final(self).wf(),
    {
        let toks = parse_spaced(sbs.as_str());
        proof {
            crate::emu32::maps::hex::lemma_split_spaces_nonempty(sbs@);
        }
        let mut i: usize = 0;
        while i < toks.len()
            invariant
                self.wf(),
                toks@ == spaced_hex(sbs@),
                toks@.len() >= 1,
                i <= toks@.len(),
                is_mapped_spec(old(self)@, addr as int) ==> forall|k: int|
                    0 <= k < toks@.len() ==> #[trigger] toks@[k] is Some,
                toks@[0] is Some,
                i == 0 ==> self@ == old(self)@,
                i > 0 ==> is_mapped_spec(old(self)@, addr as int) && self@ == store_at(
                    old(self)@,
                    addr as int,
                    seq![toks@[i - 1]->0],
                ),
            decreases toks@.len() - i,
        {
            let b = match toks[i] {
                Some(v) => v,
                None => {
                    proof {
                        lemma_store_keeps_layout(old(self)@, addr as int, seq![toks@[i - 1]->0]);
                    }
                    assert(false);
                    0
                },
            };
            let ghost before = self@;
            proof {
                if i > 0 {
                    lemma_store_keeps_layout(old(self)@, addr as int, seq![toks@[i - 1]->0]);
                    lemma_store_byte_twice(old(self)@, addr as int, toks@[i - 1]->0, b);
                }
            }
            if !self.write_byte(addr, b) {
                return false;
            }
            i = i + 1;
        }
        true
    }
}

} // verus!
