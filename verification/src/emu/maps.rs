pub mod laws;
pub mod mem64;

use vstd::prelude::*;
use vstd::utf8::encode_utf8;
use crate::strings::{push_char, is_latin1};
use crate::emu32::maps::mem32::{word_bytes, dword_bytes};
use crate::emu::maps::mem64::{Mem64, MemRegion, qword_bytes};

verus! {

/// What a `Maps` holds: its named regions, in the order they were created.
pub type MapsView = Seq<(Seq<char>, MemRegion)>;

/// No two regions share a name, and every region ends at a valid 64-bit address.
pub open spec fn maps_wf(s: MapsView) -> bool {
    &&& forall|i: int, j: int| 0 <= i < s.len() && 0 <= j < s.len() && i != j ==> s[i].0 != s[j].0
    &&& forall|i: int| 0 <= i < s.len() ==> #[trigger] s[i].1.bottom() <= u64::MAX
}

/// Index of the first region, from position `k` on, that holds `addr`.
pub open spec fn region_index_from(s: MapsView, addr: int, k: int) -> Option<int>
    decreases s.len() - k,
{
    if k < 0 || k >= s.len() {
        None
    } else if s[k].1.holds(addr) {
        Some(k)
    } else {
        region_index_from(s, addr, k + 1)
    }
}

/// Index of the first region that holds `addr`.
pub open spec fn region_index(s: MapsView, addr: int) -> Option<int> {
    region_index_from(s, addr, 0)
}

/// Index of the first region, from position `k` on, named `name`.
pub open spec fn name_index_from(s: MapsView, name: Seq<char>, k: int) -> Option<int>
    decreases s.len() - k,
{
    if k < 0 || k >= s.len() {
        None
    } else if s[k].0 == name {
        Some(k)
    } else {
        name_index_from(s, name, k + 1)
    }
}

/// Index of the region named `name`.
pub open spec fn name_index(s: MapsView, name: Seq<char>) -> Option<int> {
    name_index_from(s, name, 0)
}

/// Some region holds `addr`.
pub open spec fn is_mapped_spec(s: MapsView, addr: int) -> bool {
    region_index(s, addr) is Some
}

/// The byte at `addr`, if a region holds it.
pub open spec fn byte_at(s: MapsView, addr: int) -> Option<u8> {
    match region_index(s, addr) {
        Some(i) => Some(s[i].1.byte_at(addr)),
        None => None,
    }
}

/// The little-endian word at `addr`, if a region holds `addr`.
pub open spec fn word_at(s: MapsView, addr: int) -> Option<u16> {
    match region_index(s, addr) {
        Some(i) => Some(s[i].1.word_at(addr) as u16),
        None => None,
    }
}

/// The little-endian double word at `addr`, if a region holds `addr`.
pub open spec fn dword_at(s: MapsView, addr: int) -> Option<u32> {
    match region_index(s, addr) {
        Some(i) => Some(s[i].1.dword_at(addr) as u32),
        None => None,
    }
}

/// The little-endian quad word at `addr`, if a region holds `addr`.
pub open spec fn qword_at(s: MapsView, addr: int) -> Option<u64> {
    match region_index(s, addr) {
        Some(i) => Some(s[i].1.qword_at(addr) as u64),
        None => None,
    }
}

/// The regions after the first `n` bytes of `data` are stored one at a time from
/// `a` on, each in the region that holds its address; a byte no region holds is
/// skipped.
pub open spec fn store_prefix(s: MapsView, a: int, data: Seq<u8>, n: nat) -> MapsView
    decreases n,
{
    if n == 0 {
        s
    } else {
        store_at(store_prefix(s, a, data, (n - 1) as nat), a + n - 1, seq![data[n - 1]])
    }
}

/// The region that holds `addr`, if any, also holds the next `n - 1` addresses.
pub open spec fn room_at(s: MapsView, addr: int, n: int) -> bool {
    match region_index(s, addr) {
        Some(i) => s[i].1.fits(addr, n),
        None => true,
    }
}

/// The regions after `data` is stored at `addr` in the region that holds `addr`;
/// unchanged when no region holds it.
pub open spec fn store_at(s: MapsView, addr: int, data: Seq<u8>) -> MapsView {
    match region_index(s, addr) {
        Some(i) => s.update(i, (s[i].0, s[i].1.store(addr, data))),
        None => s,
    }
}

/// `region_index_from` finds the first holder at or after `k`.
pub proof fn lemma_region_index_from(s: MapsView, addr: int, k: int)
    requires
        0 <= k,
    ensures
        match region_index_from(s, addr, k) {
            Some(i) => k <= i < s.len() && s[i].1.holds(addr) && forall|j: int|
                k <= j < i ==> !(#[trigger] s[j].1.holds(addr)),
            None => forall|j: int| k <= j < s.len() ==> !(#[trigger] s[j].1.holds(addr)),
        },
    decreases s.len() - k,
{
    if k < s.len() && !s[k].1.holds(addr) {
        lemma_region_index_from(s, addr, k + 1);
    }
}

/// `region_index` finds the first holder.
pub proof fn lemma_region_index(s: MapsView, addr: int)
    ensures
        match region_index(s, addr) {
            Some(i) => 0 <= i < s.len() && s[i].1.holds(addr) && forall|j: int|
                0 <= j < i ==> !(#[trigger] s[j].1.holds(addr)),
            None => forall|j: int| 0 <= j < s.len() ==> !(#[trigger] s[j].1.holds(addr)),
        },
{
    lemma_region_index_from(s, addr, 0);
}

/// `name_index_from` finds the first region with that name at or after `k`.
pub proof fn lemma_name_index_from(s: MapsView, name: Seq<char>, k: int)
    requires
        0 <= k,
    ensures
        match name_index_from(s, name, k) {
            Some(i) => k <= i < s.len() && s[i].0 == name && forall|j: int|
                k <= j < i ==> #[trigger] s[j].0 != name,
            None => forall|j: int| k <= j < s.len() ==> #[trigger] s[j].0 != name,
        },
    decreases s.len() - k,
{
    if k < s.len() && s[k].0 != name {
        lemma_name_index_from(s, name, k + 1);
    }
}

/// `name_index` finds the region with that name.
pub proof fn lemma_name_index(s: MapsView, name: Seq<char>)
    ensures
        match name_index(s, name) {
            Some(i) => 0 <= i < s.len() && s[i].0 == name && forall|j: int|
                0 <= j < i ==> #[trigger] s[j].0 != name,
            None => forall|j: int| 0 <= j < s.len() ==> #[trigger] s[j].0 != name,
        },
{
    lemma_name_index_from(s, name, 0);
}

/// Regions with the same bases and lengths are looked up alike.
pub proof fn lemma_region_index_same_layout(s: MapsView, t: MapsView, addr: int)
    requires
        s.len() == t.len(),
        forall|i: int|
            0 <= i < s.len() ==> s[i].1.base == #[trigger] t[i].1.base && s[i].1.bytes.len()
                == t[i].1.bytes.len(),
    ensures
        region_index(s, addr) == region_index(t, addr),
{
    lemma_region_index(s, addr);
    lemma_region_index(t, addr);
    match region_index(s, addr) {
        Some(i) => {
            assert(t[i].1.holds(addr));
            match region_index(t, addr) {
                Some(j) => {
                    if j < i {
                        assert(s[j].1.holds(addr));
                    }
                },
                None => {},
            }
        },
        None => {
            match region_index(t, addr) {
                Some(j) => {
                    assert(s[j].1.holds(addr));
                },
                None => {},
            }
        },
    }
}

/// Storing bytes changes no region's place or size.
pub proof fn lemma_store_keeps_layout(s: MapsView, addr: int, data: Seq<u8>)
    ensures
        store_at(s, addr, data).len() == s.len(),
        forall|i: int|
            0 <= i < s.len() ==> #[trigger] store_at(s, addr, data)[i].1.base == s[i].1.base
                && store_at(s, addr, data)[i].1.bytes.len() == s[i].1.bytes.len()
                && store_at(s, addr, data)[i].0 == s[i].0,
        forall|a: int| region_index(store_at(s, addr, data), a) == region_index(s, a),
        maps_wf(s) ==> maps_wf(store_at(s, addr, data)),
{
    lemma_region_index(s, addr);
    assert forall|a: int| region_index(store_at(s, addr, data), a) == region_index(s, a) by {
        lemma_region_index_same_layout(store_at(s, addr, data), s, a);
    }
}

/// Putting a region that ends inside the address space in place of the region of the same name
/// keeps the regions well formed.
pub proof fn lemma_wf_replace(s: MapsView, i: int, r: MemRegion)
    requires
        maps_wf(s),
        0 <= i < s.len(),
        r.bottom() <= u64::MAX,
    ensures
        maps_wf(s.update(i, (s[i].0, r))),
{
}

/// Adding a region under a new name that ends inside the address space keeps the regions well formed.
pub proof fn lemma_wf_push(s: MapsView, name: Seq<char>, r: MemRegion)
    requires
        maps_wf(s),
        name_index(s, name) is None,
        r.bottom() <= u64::MAX,
    ensures
        maps_wf(s.push((name, r))),
{
    lemma_name_index(s, name);
    let t = s.push((name, r));
    assert forall|i: int, j: int| 0 <= i < t.len() && 0 <= j < t.len() && i != j implies t[i].0
        != t[j].0 by {
        if i == s.len() {
            assert(s[j].0 != name);
        } else if j == s.len() {
            assert(s[i].0 != name);
        }
    }
}

/// A mapped address is never the highest 64-bit address.
pub proof fn lemma_mapped_below_top(s: MapsView, addr: int)
    requires
        maps_wf(s),
        is_mapped_spec(s, addr),
    ensures
        addr < u64::MAX,
{
    lemma_region_index(s, addr);
    let i = region_index(s, addr)->0;
    assert(s[i].1.bottom() <= u64::MAX);
}

/// The bytes from `a` on, as characters, up to the first zero byte or the first
/// address no region holds.
pub open spec fn string_from(s: MapsView, a: int) -> Seq<char>
    decreases u64::MAX - a,
{
    if a < 0 || a >= u64::MAX {
        Seq::empty()
    } else {
        match byte_at(s, a) {
            Some(b) => if b != 0 {
                seq![b as char] + string_from(s, a + 1)
            } else {
                Seq::empty()
            },
            None => Seq::empty(),
        }
    }
}

/// A string read from memory holds only characters up to U+00FF.
pub proof fn lemma_string_from_latin1(s: MapsView, a: int)
    ensures
        is_latin1(string_from(s, a)),
    decreases u64::MAX - a,
{
    if 0 <= a < u64::MAX {
        lemma_string_from_latin1(s, a + 1);
        match byte_at(s, a) {
            Some(b) => if b != 0 {
                let t = string_from(s, a + 1);
                assert forall|i: int| 0 <= i < string_from(s, a).len() implies (
                #[trigger] string_from(s, a)[i]) as u32 <= 0xff by {
                    if i > 0 {
                        assert(string_from(s, a)[i] == t[i - 1]);
                    }
                }
            },
            None => {},
        }
    }
}

/// The low bytes of the 16-bit units from `a` on, as characters, up to the first
/// zero one or the first address no region holds.
pub open spec fn wide_from(s: MapsView, a: int) -> Seq<char>
    decreases u64::MAX - a,
{
    if a < 0 || a > u64::MAX {
        Seq::empty()
    } else {
        match byte_at(s, a) {
            Some(b) => if b == 0 {
                Seq::empty()
            } else if a + 2 <= u64::MAX {
                seq![b as char] + wide_from(s, a + 2)
            } else {
                seq![b as char]
            },
            None => Seq::empty(),
        }
    }
}

/// Reading a wide string from `a` on would step past the top of the address space:
/// the units up to the top are all mapped and not zero.
pub open spec fn wide_overruns(s: MapsView, a: int) -> bool
    decreases u64::MAX - a,
{
    if a < 0 || a > u64::MAX {
        false
    } else {
        match byte_at(s, a) {
            Some(b) => if b == 0 {
                false
            } else if a + 2 > u64::MAX {
                true
            } else {
                wide_overruns(s, a + 2)
            },
            None => false,
        }
    }
}

/// The named memory regions of an emulated 64-bit process, kept in the order they
/// were created. Regions may overlap; an address is read and written in the first
/// region, in that order, that holds it.
pub struct Maps {
    maps: Vec<(String, Mem64)>,
}

impl View for Maps {
    type V = MapsView;

    closed spec fn view(&self) -> MapsView {
        self.maps@.map_values(|p: (String, Mem64)| (p.0@, p.1@))
    }
}

impl Maps {
    /// The regions' names are distinct and every region ends inside the address space.
    pub open spec fn wf(&self) -> bool {
        maps_wf(self@)
    }

    /// No regions.
    pub fn new() -> (m: Maps)
        ensures
            m@.len() == 0,
            m.wf(),
    {
        let m = Maps { maps: Vec::new() };
        assert(m@ =~= Seq::empty());
        m
    }

    /// Number of regions.
    pub fn len(&self) -> (n: usize)
        ensures
            n == self@.len(),
    {
        self.maps.len()
    }

    /// Whether a region is named `name`.
    pub fn has_map(&self, name: &str) -> (r: bool)
        ensures
            r == (name_index(self@, name@) is Some),
    {
        let key: String = name.to_owned();
        self.find_name(&key).is_some()
    }

    /// Whether the region that holds `addr`, if any, also holds the `n - 1`
    /// addresses after it: what reading or writing `n` bytes there needs.
    pub fn has_room(&self, addr: u64, n: u64) -> (r: bool)
        ensures
            r == room_at(self@, addr as int, n as int),
    {
        match self.get_mem_by_addr(addr) {
            Some(m) => {
                proof {
                    lemma_region_index(self@, addr as int);
                }
                m.get_bottom() - addr >= n
            },
            None => true,
        }
    }

    /// Whether reading a wide string from `addr` on would step past the top of the
    /// address space.
    pub fn wide_string_overruns(&self, addr: u64) -> (r: bool)
        requires
            self.wf(),
        ensures
            r == wide_overruns(self@, addr as int),
    {
        let mut a = addr;
        loop
            invariant
                self.wf(),
                wide_overruns(self@, addr as int) == wide_overruns(self@, a as int),
            decreases u64::MAX - a,
        {
            match self.read_byte(a) {
                None => {
                    return false;
                },
                Some(b) => {
                    if b == 0 {
                        return false;
                    }
                    if a > u64::MAX - 2 {
                        return true;
                    }
                    a = a + 2;
                },
            }
        }
    }

    /// Position of the first region that holds `addr`.
    fn find_index(&self, addr: u64) -> (r: Option<usize>)
        ensures
            r matches Some(i) ==> region_index(self@, addr as int) == Some(i as int),
            r is None ==> region_index(self@, addr as int) is None,
    {
        let mut i: usize = 0;
        while i < self.maps.len()
            invariant
                0 <= i <= self.maps@.len(),
                region_index(self@, addr as int) == region_index_from(self@, addr as int, i as int),
            decreases self.maps@.len() - i,
        {
            if self.maps[i].1.inside(addr) {
                return Some(i);
            }
            i = i + 1;
        }
        None
    }

    /// Position of the region named `name`.
    fn find_name(&self, name: &String) -> (r: Option<usize>)
        ensures
            r matches Some(i) ==> name_index(self@, name@) == Some(i as int),
            r is None ==> name_index(self@, name@) is None,
    {
        let mut i: usize = 0;
        while i < self.maps.len()
            invariant
                0 <= i <= self.maps@.len(),
                name_index(self@, name@) == name_index_from(self@, name@, i as int),
            decreases self.maps@.len() - i,
        {
            if self.maps[i].0 == *name {
                return Some(i);
            }
            i = i + 1;
        }
        None
    }

    /// Adds an empty region at address 0 named `name`, replacing a region of the
    /// same name if there is one, and hands it out for setting up.
    pub fn create_map(&mut self, name: &str) -> (m: &mut Mem64)
        requires
            old(self).wf(),
        ensures
            m@.base == 0,
            m@.bytes.len() == 0,
            match name_index(old(self)@, name@) {
                Some(i) => final(self)@ == old(self)@.update(i, (name@, final(m)@)),
                None => final(self)@ == old(self)@.push((name@, final(m)@)),
            },
    {
        let key: String = name.to_owned();
        proof {
            lemma_name_index(self@, name@);
        }
        match self.find_name(&key) {
            Some(i) => {
                assert(self@[i as int].0 == name@);
                let entry = &mut self.maps[i];
                entry.1 = Mem64::new();
                &mut entry.1
            },
            None => {
                self.maps.push((key, Mem64::new()));
                let last = self.maps.len() - 1;
                let entry = &mut self.maps[last];
                &mut entry.1
            },
        }
    }
    /// The region named `name`, handed out for changes.
    pub fn get_mem(&mut self, name: &str) -> (m: &mut Mem64)
        requires
            old(self).wf(),
            name_index(old(self)@, name@) is Some,
        ensures
            ({
                let i = name_index(old(self)@, name@)->0;
                &&& m@ == old(self)@[i].1
                &&& final(self)@ == old(self)@.update(i, (name@, final(m)@))
            }),
    {
        let key: String = name.to_owned();
        proof {
            lemma_name_index(self@, name@);
        }
        let i = match self.find_name(&key) {
            Some(i) => i,
            None => {
                proof {
                    assert(false);
                }
                0
            },
        };
        assert(self@[i as int].0 == name@);
        let entry = &mut self.maps[i];
        &mut entry.1
    }

    /// The region that holds `addr`.
    pub fn get_mem_by_addr(&self, addr: u64) -> (r: Option<&Mem64>)
        ensures
            match region_index(self@, addr as int) {
                Some(i) => r matches Some(m) && m@ == self@[i].1,
                None => r is None,
            },
    {
        match self.find_index(addr) {
            Some(i) => {
                proof {
                    lemma_region_index(self@, addr as int);
                }
                assert(self@[i as int].1 == self.maps@[i as int].1@);
                Some(&self.maps[i].1)
            },
            None => None,
        }
    }

    /// Whether some region holds `addr`.
    pub fn is_mapped(&self, addr: u64) -> (r: bool)
        ensures
            r == is_mapped_spec(self@, addr as int),
    {
        self.find_index(addr).is_some()
    }

    /// Name of the region that holds `addr`.
    pub fn get_addr_name(&self, addr: u64) -> (r: Option<String>)
        ensures
            match region_index(self@, addr as int) {
                Some(i) => r matches Some(n) && n@ == self@[i].0,
                None => r is None,
            },
    {
        match self.find_index(addr) {
            Some(i) => {
                proof {
                    lemma_region_index(self@, addr as int);
                }
                assert(self@[i as int].0 == self.maps@[i as int].0@);
                Some(self.maps[i].0.clone())
            },
            None => None,
        }
    }

    /// The byte at `addr`, if a region holds it.
    pub fn read_byte(&self, addr: u64) -> (r: Option<u8>)
        ensures
            r == byte_at(self@, addr as int),
    {
        match self.find_index(addr) {
            Some(i) => {
                proof {
                    lemma_region_index(self@, addr as int);
                }
                assert(self@[i as int].1 == self.maps@[i as int].1@);
                Some(self.maps[i].1.read_byte(addr))
            },
            None => None,
        }
    }

    /// The little-endian word at `addr`, if a region holds `addr`.
    pub fn read_word(&self, addr: u64) -> (r: Option<u16>)
        requires
            room_at(self@, addr as int, 2),
        ensures
            r == word_at(self@, addr as int),
    {
        match self.find_index(addr) {
            Some(i) => {
                proof {
                    lemma_region_index(self@, addr as int);
                }
                assert(self@[i as int].1 == self.maps@[i as int].1@);
                Some(self.maps[i].1.read_word(addr))
            },
            None => None,
        }
    }

    /// The little-endian double word at `addr`, if a region holds `addr`.
    pub fn read_dword(&self, addr: u64) -> (r: Option<u32>)
        requires
            room_at(self@, addr as int, 4),
        ensures
            r == dword_at(self@, addr as int),
    {
        match self.find_index(addr) {
            Some(i) => {
                proof {
                    lemma_region_index(self@, addr as int);
                }
                assert(self@[i as int].1 == self.maps@[i as int].1@);
                Some(self.maps[i].1.read_dword(addr))
            },
            None => None,
        }
    }

    /// Stores `value` at `addr`; `false`, with nothing changed, when no region holds `addr`.
    pub fn write_byte(&mut self, addr: u64, value: u8) -> (r: bool)
        requires
            old(self).wf(),
        ensures
            r == is_mapped_spec(old(self)@, addr as int),
            final(self)@ == store_at(old(self)@, addr as int, seq![value]),
            final(self).wf(),
    {
        proof {
            lemma_region_index(self@, addr as int);
            lemma_store_keeps_layout(self@, addr as int, seq![value]);
        }
        match self.find_index(addr) {
            Some(i) => {
                assert(self@[i as int].1 == self.maps@[i as int].1@);
                self.maps[i].1.write_byte(addr, value);
                assert(self@ =~= store_at(old(self)@, addr as int, seq![value]));
                true
            },
            None => false,
        }
    }

    /// Stores `value` at `addr`, least significant byte first; `false`, with nothing
    /// changed, when no region holds `addr`.
    pub fn write_word(&mut self, addr: u64, value: u16) -> (r: bool)
        requires
            old(self).wf(),
            room_at(old(self)@, addr as int, 2),
        ensures
            r == is_mapped_spec(old(self)@, addr as int),
            final(self)@ == store_at(old(self)@, addr as int, word_bytes(value)),
            final(self).wf(),
    {
        proof {
            lemma_region_index(self@, addr as int);
            lemma_store_keeps_layout(self@, addr as int, word_bytes(value));
        }
        match self.find_index(addr) {
            Some(i) => {
                assert(self@[i as int].1 == self.maps@[i as int].1@);
                self.maps[i].1.write_word(addr, value);
                assert(self@ =~= store_at(old(self)@, addr as int, word_bytes(value)));
                true
            },
            None => false,
        }
    }

    /// Stores `value` at `addr`, least significant byte first; `false`, with nothing
    /// changed, when no region holds `addr`.
    pub fn write_dword(&mut self, addr: u64, value: u32) -> (r: bool)
        requires
            old(self).wf(),
            room_at(old(self)@, addr as int, 4),
        ensures
            r == is_mapped_spec(old(self)@, addr as int),
            final(self)@ == store_at(old(self)@, addr as int, dword_bytes(value)),
            final(self).wf(),
    {
        proof {
            lemma_region_index(self@, addr as int);
            lemma_store_keeps_layout(self@, addr as int, dword_bytes(value));
        }
        match self.find_index(addr) {
            Some(i) => {
                assert(self@[i as int].1 == self.maps@[i as int].1@);
                self.maps[i].1.write_dword(addr, value);
                assert(self@ =~= store_at(old(self)@, addr as int, dword_bytes(value)));
                true
            },
            None => false,
        }
    }
    /// The bytes from `addr` on, as characters, up to the first zero byte or the
    /// first address no region holds.
    pub fn read_string(&self, addr: u64) -> (r: String)
        requires
            self.wf(),
        ensures
            r@ == string_from(self@, addr as int),
    {
        let mut out = String::new();
        let mut i: u64 = 0;
        loop
            invariant
                self.wf(),
                addr + i <= u64::MAX,
                out@ + string_from(self@, addr + i) == string_from(self@, addr as int),
            decreases u64::MAX - addr - i,
        {
            let b = match self.read_byte(addr + i) {
                Some(v) => v,
                None => {
                    assert(out@ + Seq::<char>::empty() =~= out@);
                    return out;
                },
            };
            if b == 0 {
                assert(out@ + Seq::<char>::empty() =~= out@);
                return out;
            }
            proof {
                lemma_mapped_below_top(self@, addr + i);
                assert(out@.push(b as char) + string_from(self@, addr + i + 1) =~= out@ + string_from(self@, addr + i));
            }
            push_char(&mut out, b as char);
            i = i + 1;
        }
    }

    /// The low bytes of the 16-bit units from `addr` on, as characters, up to the
    /// first unit whose low byte is zero or the first address no region holds.
    pub fn read_wide_string(&self, addr: u64) -> (r: String)
        requires
            self.wf(),
            !wide_overruns(self@, addr as int),
        ensures
            r@ == wide_from(self@, addr as int),
    {
        let mut out = String::new();
        let mut i: u64 = 0;
        loop
            invariant
                self.wf(),
                addr + i <= u64::MAX,
                !wide_overruns(self@, addr + i),
                out@ + wide_from(self@, addr + i) == wide_from(self@, addr as int),
            decreases u64::MAX - addr - i,
        {
            let b = match self.read_byte(addr + i) {
                Some(v) => v,
                None => {
                    assert(out@ + Seq::<char>::empty() =~= out@);
                    return out;
                },
            };
            if b == 0 {
                assert(out@ + Seq::<char>::empty() =~= out@);
                return out;
            }
            proof {
                assert(out@.push(b as char) + wide_from(self@, addr + i + 2) =~= out@ + wide_from(self@, addr + i));
            }
            push_char(&mut out, b as char);
            i = i + 2;
        }
    }

    /// The little-endian quad word at `addr`, if a region holds `addr`.
    pub fn read_qword(&self, addr: u64) -> (r: Option<u64>)
        requires
            room_at(self@, addr as int, 8),
        ensures
            r == qword_at(self@, addr as int),
    {
        match self.find_index(addr) {
            Some(i) => {
                proof {
                    lemma_region_index(self@, addr as int);
                }
                assert(self@[i as int].1 == self.maps@[i as int].1@);
                Some(self.maps[i].1.read_qword(addr))
            },
            None => None,
        }
    }

    /// Stores `value` at `addr`, least significant byte first; `false`, with nothing
    /// changed, when no region holds `addr`.
    pub fn write_qword(&mut self, addr: u64, value: u64) -> (r: bool)
        requires
            old(self).wf(),
            room_at(old(self)@, addr as int, 8),
        ensures
            r == is_mapped_spec(old(self)@, addr as int),
            final(self)@ == store_at(old(self)@, addr as int, qword_bytes(value)),
            final(self).wf(),
    {
        proof {
            lemma_region_index(self@, addr as int);
            lemma_store_keeps_layout(self@, addr as int, qword_bytes(value));
        }
        match self.find_index(addr) {
            Some(i) => {
                assert(self@[i as int].1 == self.maps@[i as int].1@);
                self.maps[i].1.write_qword(addr, value);
                assert(self@ =~= store_at(old(self)@, addr as int, qword_bytes(value)));
                true
            },
            None => false,
        }
    }

    /// Stores the UTF-8 bytes of `text` one at a time from `to` on; a byte whose
    /// address no region holds is skipped.
    pub fn write_string(&mut self, to: u64, text: &str)
        requires
            old(self).wf(),
            to + encode_utf8(text@).len() <= u64::MAX + 1,
        ensures
            final(self)@ == store_prefix(
                old(self)@,
                to as int,
                encode_utf8(text@),
                encode_utf8(text@).len(),
            ),
            final(self).wf(),
    {
        let bytes = text.as_bytes();
        let mut i: usize = 0;
        while i < bytes.len()
            invariant
                self.wf(),
                bytes@ == encode_utf8(text@),
                i <= bytes@.len(),
                to + bytes@.len() <= u64::MAX + 1,
                self@ == store_prefix(old(self)@, to as int, bytes@, i as nat),
            decreases bytes@.len() - i,
        {
            proof {
                lemma_store_keeps_layout(self@, to + i, seq![bytes@[i as int]]);
            }
            self.write_byte(to + i as u64, bytes[i]);
            i = i + 1;
        }
    }
}

} // verus!
