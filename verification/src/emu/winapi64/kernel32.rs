#![allow(non_snake_case)]

use vstd::prelude::*;
use crate::emu::Emu;
use crate::emu::maps::{
    Maps, MapsView, room_at, qword_at, dword_at, word_at, is_mapped_spec, name_index,
    string_from, wide_from, wide_overruns, store_prefix, lemma_string_from_latin1,
};
use crate::strings::{lower, to_lowercase};
use vstd::string::StringSliceAdditionalSpecFns;

verus! {

broadcast use vstd::string::group_string_axioms;

/// The kernel32 functions the emulator answers.
#[derive(Debug, Clone, Copy, PartialEq, Eq, Structural)]
pub enum Kernel32Api {
    LoadLibraryA,
    GetProcAddress,
    CreateToolhelp32Snapshot,
    Process32First,
    Process32Next,
    LStrCmpI,
    AreFileApiIsAnsi,
    BeginUpdateResourceA,
}

/// The function whose entry point the emulated kernel32 image has at `addr`.
pub open spec fn api_at(addr: u64) -> Option<Kernel32Api> {
    if addr == 0x76dc7070 {
        Some(Kernel32Api::LoadLibraryA)
    } else if addr == 0x76dd3690 {
        Some(Kernel32Api::GetProcAddress)
    } else if addr == 0x76db21e0 {
        Some(Kernel32Api::CreateToolhelp32Snapshot)
    } else if addr == 0x76e0fdb0 {
        Some(Kernel32Api::Process32First)
    } else if addr == 0x76e0fcc0 {
        Some(Kernel32Api::Process32Next)
    } else if addr == 0x76db40a0 {
        Some(Kernel32Api::LStrCmpI)
    } else if addr == 0x76dfc5d0 {
        Some(Kernel32Api::AreFileApiIsAnsi)
    } else if addr == 0x76e3e420 {
        Some(Kernel32Api::BeginUpdateResourceA)
    } else {
        None
    }
}

/// Which kernel32 function a call to `addr` reaches; `None` for an address that has
/// no handler.
pub fn gateway(addr: u64) -> (r: Option<Kernel32Api>)
    ensures
        r == api_at(addr),
{
    match addr {
        0x76dc7070 => Some(Kernel32Api::LoadLibraryA),
        0x76dd3690 => Some(Kernel32Api::GetProcAddress),
        0x76db21e0 => Some(Kernel32Api::CreateToolhelp32Snapshot),
        0x76e0fdb0 => Some(Kernel32Api::Process32First),
        0x76e0fcc0 => Some(Kernel32Api::Process32Next),
        0x76db40a0 => Some(Kernel32Api::LStrCmpI),
        0x76dfc5d0 => Some(Kernel32Api::AreFileApiIsAnsi),
        0x76e3e420 => Some(Kernel32Api::BeginUpdateResourceA),
        _ => None,
    }
}

/// The map holding the image of library `dll`, named in lower case with or without
/// its `.dll` suffix.
pub open spec fn library_map(dll: Seq<char>) -> Option<Seq<char>> {
    if dll == "ntdll"@ || dll == "ntdll.dll"@ {
        Some("ntdll_pe"@)
    } else if dll == "ws2_32"@ || dll == "ws2_32.dll"@ {
        Some("ws2_32_pe"@)
    } else if dll == "wininet"@ || dll == "wininet.dll"@ {
        Some("wininet_pe"@)
    } else if dll == "advapi32"@ || dll == "advapi32.dll"@ {
        Some("advapi32_pe"@)
    } else if dll == "kernel32"@ || dll == "kernel32.dll"@ {
        Some("kernel32_pe"@)
    } else {
        None
    }
}

/// The map holding the image of library `dll`, given in lower case.
pub fn library_map_name(dll: &String) -> (r: Option<&'static str>)
    ensures
        match library_map(dll@) {
            Some(m) => r matches Some(n) && n@ == m,
            None => r is None,
        },
{
    if *dll == "ntdll".to_owned() || *dll == "ntdll.dll".to_owned() {
        Some("ntdll_pe")
    } else if *dll == "ws2_32".to_owned() || *dll == "ws2_32.dll".to_owned() {
        Some("ws2_32_pe")
    } else if *dll == "wininet".to_owned() || *dll == "wininet.dll".to_owned() {
        Some("wininet_pe")
    } else if *dll == "advapi32".to_owned() || *dll == "advapi32.dll".to_owned() {
        Some("advapi32_pe")
    } else if *dll == "kernel32".to_owned() || *dll == "kernel32.dll".to_owned() {
        Some("kernel32_pe")
    } else {
        None
    }
}

/// The library `LoadLibraryA` is asked for, in lower case.
pub open spec fn requested_library(s: MapsView, rcx: u64) -> Seq<char> {
    lower(string_from(s, rcx as int))
}

/// `LoadLibraryA(name)`: answers with the base of the map that holds the image of
/// the library named by the C string at `rcx`. Gives back that name, as read.
pub fn LoadLibraryA(emu: &mut Emu) -> (dll: String)
    requires
        old(emu).maps.wf(),
        library_map(requested_library(old(emu).maps@, old(emu).regs.rcx)) matches Some(m)
            && name_index(old(emu).maps@, m) is Some,
    ensures
        dll@ == string_from(old(emu).maps@, old(emu).regs.rcx as int),
        final(emu).regs.rax == old(emu).maps@[name_index(
            old(emu).maps@,
            library_map(requested_library(old(emu).maps@, old(emu).regs.rcx))->0,
        )->0].1.base,
        final(emu).regs.rcx == old(emu).regs.rcx,
        final(emu).regs.rdx == old(emu).regs.rdx,
        final(emu).maps@ == old(emu).maps@,
{
    let dllptr = emu.regs.rcx;
    let dll = emu.maps.read_string(dllptr);
    proof {
        lemma_string_from_latin1(emu.maps@, dllptr as int);
    }
    let lowered = to_lowercase(&dll);
    let name = match library_map_name(&lowered) {
        Some(n) => n,
        None => {
            assert(false);
            ""
        },
    };
    proof {
        crate::emu::maps::lemma_name_index(emu.maps@, name@);
    }
    let ghost before = emu.maps@;
    let m = emu.maps.get_mem(name);
    emu.regs.rax = m.get_base();
    assert(emu.maps@ =~= before);
    dll
}

/// `CreateToolhelp32Snapshot(flags, pid)`: answers with `handle`, a handle newly
/// made for the snapshot.
pub fn CreateToolhelp32Snapshot(emu: &mut Emu, handle: u64)
    ensures
        final(emu).regs.rax == handle,
        final(emu).regs.rcx == old(emu).regs.rcx,
        final(emu).regs.rdx == old(emu).regs.rdx,
        final(emu).maps@ == old(emu).maps@,
{
    emu.regs.rax = handle;
}

/// The process entry `Process32First` writes into the caller's structure: the
/// executable name, NUL included, at offset 36.
pub open spec fn first_process_name() -> Seq<u8> {
    seq![0x73u8, 0x6d, 0x73, 0x73, 0x2e, 0x65, 0x78, 0x65, 0x00]
}

/// `Process32First(snapshot, entry)`: when `handle_exists` (the snapshot handle in
/// `rcx` is known), writes the first process's name into the entry at `rdx` and
/// answers 1; otherwise answers 0.
pub fn Process32First(emu: &mut Emu, handle_exists: bool)
    requires
        old(emu).maps.wf(),
        handle_exists ==> old(emu).regs.rdx + 36 + 9 <= u64::MAX + 1,
    ensures
        final(emu).regs.rax == if handle_exists {
            1u64
        } else {
            0u64
        },
        final(emu).maps@ == if handle_exists {
            store_prefix(old(emu).maps@, old(emu).regs.rdx + 36, first_process_name(), 9)
        } else {
            old(emu).maps@
        },
        final(emu).maps.wf(),
        final(emu).regs.rcx == old(emu).regs.rcx,
        final(emu).regs.rdx == old(emu).regs.rdx,
{
    let lppe = emu.regs.rdx;
    if !handle_exists {
        emu.regs.rax = 0;
        return;
    }
    let name = "smss.exe\x00";
    proof {
        reveal_strlit("smss.exe\x00");
        assert(vstd::string::is_ascii(name));
        assert(name.spec_bytes() =~= Seq::new(name@.len(), |i| name@[i] as u8));
        assert(vstd::utf8::encode_utf8(name@) =~= first_process_name());
    }
    emu.maps.write_string(lppe + 36, name);
    emu.regs.rax = 1;
}

/// `Process32Next(snapshot, entry)`: there is no further process; answers 0.
pub fn Process32Next(emu: &mut Emu)
    ensures
        final(emu).regs.rax == 0,
        final(emu).regs.rcx == old(emu).regs.rcx,
        final(emu).regs.rdx == old(emu).regs.rdx,
        final(emu).maps@ == old(emu).maps@,
{
    emu.regs.rax = 0;
}

/// `lstrcmpi(a, b)`: answers 0 when the C strings at `rcx` and `rdx` are equal and 1
/// otherwise. Gives back both strings, as read.
pub fn LStrCmpI(emu: &mut Emu) -> (r: (String, String))
    requires
        old(emu).maps.wf(),
    ensures
        r.0@ == string_from(old(emu).maps@, old(emu).regs.rcx as int),
        r.1@ == string_from(old(emu).maps@, old(emu).regs.rdx as int),
        final(emu).regs.rax == if r.0@ == r.1@ {
            0u64
        } else {
            1u64
        },
        final(emu).regs.rcx == old(emu).regs.rcx,
        final(emu).regs.rdx == old(emu).regs.rdx,
        final(emu).maps@ == old(emu).maps@,
{
    let sptr1 = emu.regs.rcx;
    let sptr2 = emu.regs.rdx;
    let s1 = emu.maps.read_string(sptr1);
    let s2 = emu.maps.read_string(sptr2);
    if s1 == s2 {
        emu.regs.rax = 0;
    } else {
        emu.regs.rax = 1;
    }
    (s1, s2)
}

/// `AreFileApisANSI()`: answers 1.
pub fn AreFileApiIsAnsi(emu: &mut Emu)
    ensures
        final(emu).regs.rax == 1,
        final(emu).regs.rcx == old(emu).regs.rcx,
        final(emu).regs.rdx == old(emu).regs.rdx,
        final(emu).maps@ == old(emu).maps@,
{
    emu.regs.rax = 1;
}

/// `BeginUpdateResourceA(file, delete)`: answers with `handle`, a handle newly made
/// for the update. Gives back the file name at `rcx`, as read.
pub fn BeginUpdateResourceA(emu: &mut Emu, handle: u64) -> (filename: String)
    requires
        old(emu).maps.wf(),
    ensures
        filename@ == string_from(old(emu).maps@, old(emu).regs.rcx as int),
        final(emu).regs.rax == handle,
        final(emu).regs.rcx == old(emu).regs.rcx,
        final(emu).regs.rdx == old(emu).regs.rdx,
        final(emu).maps@ == old(emu).maps@,
{
    let p_file_name = emu.regs.rcx;
    let filename = emu.maps.read_string(p_file_name);
    emu.regs.rax = handle;
    filename
}

/// The quad word at `a`, when the handler can go on past reading it: `a` is a valid
/// address, a region holds it and the seven after it, and so a value is there.
pub open spec fn need_qword(s: MapsView, a: int) -> Option<u64> {
    if 0 <= a <= u64::MAX && room_at(s, a, 8) {
        qword_at(s, a)
    } else {
        None
    }
}

/// The double word at `a`, when the handler can go on past reading it.
pub open spec fn need_dword(s: MapsView, a: int) -> Option<u32> {
    if 0 <= a <= u64::MAX && room_at(s, a, 4) {
        dword_at(s, a)
    } else {
        None
    }
}

/// The word at `a`, when the handler can go on past reading it.
pub open spec fn need_word(s: MapsView, a: int) -> Option<u16> {
    if 0 <= a <= u64::MAX && room_at(s, a, 2) {
        word_at(s, a)
    } else {
        None
    }
}

/// What reading the double word at `a` gives, when the read itself goes through:
/// `Some(None)` when no region holds `a`.
pub open spec fn try_dword(s: MapsView, a: int) -> Option<Option<u32>> {
    if 0 <= a <= u64::MAX && room_at(s, a, 4) {
        Some(dword_at(s, a))
    } else {
        None
    }
}

/// Where the walk over the loaded modules stands after looking at one module.
#[derive(Debug, Clone, Copy, PartialEq, Eq, Structural)]
pub enum ModuleStep {
    /// The function is exported at this address.
    Found(u64),
    /// A module's header could not be read: the lookup answers 0.
    Missing,
    /// The function is not exported by this module; the next module's list entry.
    Next(u64),
    /// A read or an address computation the handler cannot go on past.
    Stuck,
}

/// Looking at the name table of an export directory, from entry `k - 1` down to
/// entry 0, for a name that reads `func` in lower case: `Some(Some(i))` for the first
/// match, `Some(None)` for none, `None` when a read cannot be made.
pub open spec fn scan_names(s: MapsView, func: Seq<char>, base: int, tbl: int, k: nat) -> Option<
    Option<int>,
>
    decreases k,
{
    if k == 0 {
        Some(None)
    } else {
        let idx = k - 1;
        match need_dword(s, tbl + 4 * idx) {
            None => None,
            Some(rva) => {
                let va = rva + base;
                if va > u64::MAX {
                    None
                } else if lower(string_from(s, va)) == func {
                    Some(Some(idx))
                } else {
                    scan_names(s, func, base, tbl, idx as nat)
                }
            },
        }
    }
}

/// A name found by `scan_names` is one of the entries it looked at.
pub proof fn lemma_scan_names_index(s: MapsView, func: Seq<char>, base: int, tbl: int, k: nat)
    ensures
        scan_names(s, func, base, tbl, k) matches Some(Some(i)) ==> 0 <= i < k,
    decreases k,
{
    if k > 0 {
        lemma_scan_names_index(s, func, base, tbl, (k - 1) as nat);
    }
}

/// The address export entry `idx` of the directory at `et` of the module at `base`
/// resolves to: its ordinal from the ordinal table, then its address from the
/// address table.
pub open spec fn resolve_export(s: MapsView, base: int, et: int, idx: int) -> Option<u64> {
    match need_dword(s, et + 0x24) {
        None => None,
        Some(ord_rva) => if ord_rva + base > u64::MAX {
            None
        } else {
            match need_word(s, ord_rva + base + 2 * idx) {
                None => None,
                Some(ordinal) => match need_dword(s, et + 0x1c) {
                    None => None,
                    Some(fat_rva) => if fat_rva + base > u64::MAX {
                        None
                    } else {
                        match need_dword(s, fat_rva + base + 4 * ordinal) {
                            None => None,
                            Some(func_rva) => if func_rva + base > u64::MAX {
                                None
                            } else {
                                Some((func_rva + base) as u64)
                            },
                        }
                    },
                },
            }
        },
    }
}

/// Moving on to the list entry whose address is the quad word at `flink`.
pub open spec fn follow_qword(s: MapsView, flink: int) -> ModuleStep {
    match need_qword(s, flink) {
        Some(f) => ModuleStep::Next(f),
        None => ModuleStep::Stuck,
    }
}

/// Moving on to the list entry whose address is the double word at `flink`.
pub open spec fn follow_dword(s: MapsView, flink: int) -> ModuleStep {
    match need_dword(s, flink) {
        Some(f) => ModuleStep::Next(f as u64),
        None => ModuleStep::Stuck,
    }
}

/// Looking for the export `func` (in lower case) in the module whose loader list
/// entry is at `flink`: the module's base is at entry offset 0x30 and its name at
/// offset 0x60; the PE header offset is at base + 0x3c, the export directory's RVA at
/// header + 0x88, and in the directory the name count, name table, address table and
/// ordinal table are at 0x18, 0x20, 0x1c and 0x24.
pub open spec fn module_step(s: MapsView, func: Seq<char>, flink: int) -> ModuleStep {
    match need_qword(s, flink + 0x60) {
        None => ModuleStep::Stuck,
        Some(name_ptr) => match need_qword(s, flink + 0x50) {
            None => ModuleStep::Stuck,
            Some(path_ptr) => match need_qword(s, flink + 0x30) {
                None => ModuleStep::Stuck,
                Some(base) => if wide_overruns(s, name_ptr as int) {
                    ModuleStep::Stuck
                } else {
                    match try_dword(s, base + 0x3c) {
                        None => ModuleStep::Stuck,
                        Some(None) => ModuleStep::Missing,
                        Some(Some(hdr)) => match need_dword(s, base + hdr + 0x88) {
                            None => ModuleStep::Stuck,
                            Some(et_rva) => if et_rva == 0 {
                                follow_qword(s, flink)
                            } else if et_rva + base > u64::MAX {
                                ModuleStep::Stuck
                            } else if !is_mapped_spec(s, et_rva + base) {
                                follow_qword(s, flink)
                            } else {
                                let et = et_rva + base;
                                match need_dword(s, et + 0x18) {
                                    None => ModuleStep::Stuck,
                                    Some(n) => if n == 0 {
                                        follow_qword(s, flink)
                                    } else {
                                        match need_dword(s, et + 0x20) {
                                            None => ModuleStep::Stuck,
                                            Some(tbl_rva) => if tbl_rva + base > u64::MAX {
                                                ModuleStep::Stuck
                                            } else {
                                                match scan_names(
                                                    s,
                                                    func,
                                                    base as int,
                                                    tbl_rva + base,
                                                    n as nat,
                                                ) {
                                                    None => ModuleStep::Stuck,
                                                    Some(None) => follow_dword(s, flink),
                                                    Some(Some(idx)) => match resolve_export(
                                                        s,
                                                        base as int,
                                                        et,
                                                        idx,
                                                    ) {
                                                        None => ModuleStep::Stuck,
                                                        Some(va) => ModuleStep::Found(va),
                                                    },
                                                }
                                            },
                                        }
                                    },
                                }
                            },
                        },
                    }
                },
            },
        },
    }
}

/// Where the walk stands after looking at up to `fuel` modules from the entry at
/// `flink` on.
pub open spec fn walk(s: MapsView, func: Seq<char>, flink: int, fuel: nat) -> ModuleStep
    decreases fuel,
{
    if fuel == 0 {
        ModuleStep::Next(flink as u64)
    } else {
        match module_step(s, func, flink) {
            ModuleStep::Next(f) => walk(s, func, f as int, (fuel - 1) as nat),
            other => other,
        }
    }
}

/// The loader list entry of the module the walk stopped at.
pub open spec fn walk_entry(s: MapsView, func: Seq<char>, flink: int, fuel: nat) -> int
    decreases fuel,
{
    if fuel == 0 {
        flink
    } else {
        match module_step(s, func, flink) {
            ModuleStep::Next(f) => walk_entry(s, func, f as int, (fuel - 1) as nat),
            _ => flink,
        }
    }
}

/// The name of the module whose loader list entry is at `flink`.
pub open spec fn module_name(s: MapsView, flink: int) -> Seq<char> {
    wide_from(s, need_qword(s, flink + 0x60)->0 as int)
}

/// The walk has come to an answer.
pub open spec fn is_answer(o: ModuleStep) -> bool {
    o is Found || o is Missing
}

/// The first loader list entry: the loader data's address is at offset 0x18 of the
/// map named `peb`, and the list's first link at offset 0x10 of the loader data.
pub open spec fn first_link(s: MapsView) -> Option<u64> {
    match name_index(s, "peb"@) {
        None => None,
        Some(p) => {
            let a = s[p].1.base + 0x18;
            if a > u64::MAX || !s[p].1.fits(a, 8) {
                None
            } else {
                need_qword(s, s[p].1.qword_at(a) + 0x10)
            }
        },
    }
}

/// Where `GetProcAddress` stands for the function named by the C string at
/// `func_ptr`, after looking at up to `fuel` modules.
pub open spec fn proc_lookup(s: MapsView, func_ptr: int, fuel: nat) -> ModuleStep {
    match first_link(s) {
        None => ModuleStep::Stuck,
        Some(f0) => walk(s, lower(string_from(s, func_ptr)), f0 as int, fuel),
    }
}

/// The loader list entry of the module `GetProcAddress` stops at.
pub open spec fn proc_entry(s: MapsView, func_ptr: int, fuel: nat) -> int {
    walk_entry(s, lower(string_from(s, func_ptr)), first_link(s)->0 as int, fuel)
}

/// The value `GetProcAddress` answers with for an answer of the walk.
pub open spec fn answer_value(o: ModuleStep) -> u64 {
    match o {
        ModuleStep::Found(v) => v,
        _ => 0,
    }
}

/// Two walks that both come to an answer come to the same one.
pub proof fn lemma_walk_answer_unique(s: MapsView, func: Seq<char>, flink: int, n: nat, m: nat)
    requires
        is_answer(walk(s, func, flink, n)),
        is_answer(walk(s, func, flink, m)),
    ensures
        walk(s, func, flink, n) == walk(s, func, flink, m),
        walk_entry(s, func, flink, n) == walk_entry(s, func, flink, m),
    decreases n,
{
    if n > 0 && m > 0 {
        match module_step(s, func, flink) {
            ModuleStep::Next(f) => {
                lemma_walk_answer_unique(s, func, f as int, (n - 1) as nat, (m - 1) as nat);
            },
            _ => {},
        }
    }
}

/// The quad word at `a`, which the handler needs to go on.
fn must_qword(maps: &Maps, a: u64) -> (q: u64)
    requires
        need_qword(maps@, a as int) is Some,
    ensures
        Some(q) == need_qword(maps@, a as int),
{
    match maps.read_qword(a) {
        Some(v) => v,
        None => {
            assert(false);
            0
        },
    }
}

/// The double word at `a`, which the handler needs to go on.
fn must_dword(maps: &Maps, a: u64) -> (d: u32)
    requires
        need_dword(maps@, a as int) is Some,
    ensures
        Some(d) == need_dword(maps@, a as int),
{
    match maps.read_dword(a) {
        Some(v) => v,
        None => {
            assert(false);
            0
        },
    }
}

/// The word at `a`, which the handler needs to go on.
fn must_word(maps: &Maps, a: u64) -> (w: u16)
    requires
        need_word(maps@, a as int) is Some,
    ensures
        Some(w) == need_word(maps@, a as int),
{
    match maps.read_word(a) {
        Some(v) => v,
        None => {
            assert(false);
            0
        },
    }
}

/// Looks at the module whose loader list entry is at `flink`; gives back the step and
/// the module's name.
fn visit_module(maps: &Maps, func: &String, flink: u64) -> (r: (ModuleStep, String))
    requires
        maps.wf(),
        module_step(maps@, func@, flink as int) != ModuleStep::Stuck,
    ensures
        r.0 == module_step(maps@, func@, flink as int),
        r.1@ == module_name(maps@, flink as int),
{
    let ghost s = maps@;
    let mod_name_ptr = must_qword(maps, flink + 0x60);
    let _mod_path_ptr = must_qword(maps, flink + 0x50);
    let mod_base = must_qword(maps, flink + 0x30);
    let mod_name = maps.read_wide_string(mod_name_ptr);
    let pe_hdr_off = match maps.read_dword(mod_base + 0x3c) {
        Some(hdr) => hdr as u64,
        None => {
            return (ModuleStep::Missing, mod_name);
        },
    };
    let export_table_rva = must_dword(maps, mod_base + pe_hdr_off + 0x88) as u64;
    if export_table_rva == 0 {
        let next = must_qword(maps, flink);
        return (ModuleStep::Next(next), mod_name);
    }
    let export_table = export_table_rva + mod_base;
    if !maps.is_mapped(export_table) {
        let next = must_qword(maps, flink);
        return (ModuleStep::Next(next), mod_name);
    }
    let num_of_funcs = must_dword(maps, export_table + 0x18) as u64;
    if num_of_funcs == 0 {
        let next = must_qword(maps, flink);
        return (ModuleStep::Next(next), mod_name);
    }
    let func_name_tbl_rva = must_dword(maps, export_table + 0x20) as u64;
    let func_name_tbl = func_name_tbl_rva + mod_base;
    let ghost total = num_of_funcs as nat;
    let mut num = num_of_funcs;
    #[verifier::loop_isolation(false)]
    while num > 0
        invariant
            maps.wf(),
            maps@ == s,
            num <= total,
            total < 0x1_0000_0000,
            scan_names(s, func@, mod_base as int, func_name_tbl as int, total) == scan_names(
                s,
                func@,
                mod_base as int,
                func_name_tbl as int,
                num as nat,
            ),
            scan_names(s, func@, mod_base as int, func_name_tbl as int, total) is Some,
            scan_names(s, func@, mod_base as int, func_name_tbl as int, total) matches Some(Some(
                idx,
            )) ==> resolve_export(s, mod_base as int, export_table as int, idx) is Some,
        decreases num,
    {
        num = num - 1;
        let func_name_rva = must_dword(maps, func_name_tbl + num * 4) as u64;
        let func_name_va = func_name_rva + mod_base;
        let raw_name = maps.read_string(func_name_va);
        proof {
            crate::emu::maps::lemma_string_from_latin1(s, func_name_va as int);
        }
        let func_name = to_lowercase(&raw_name);
        if func_name == *func {
            let ordinal_tbl_rva = must_dword(maps, export_table + 0x24) as u64;
            let ordinal_tbl = ordinal_tbl_rva + mod_base;
            let ordinal = must_word(maps, ordinal_tbl + 2 * num) as u64;
            let func_addr_tbl_rva = must_dword(maps, export_table + 0x1c) as u64;
            let func_addr_tbl = func_addr_tbl_rva + mod_base;
            let func_rva = must_dword(maps, func_addr_tbl + 4 * ordinal) as u64;
            let func_va = func_rva + mod_base;
            return (ModuleStep::Found(func_va), mod_name);
        }
    }
    let next = must_dword(maps, flink) as u64;
    (ModuleStep::Next(next), mod_name)
}

/// `GetProcAddress(module, name)`: walks the loader's module list from the process
/// environment block and answers with the address of the first export, in the first
/// module that has one, whose name equals the C string at `rdx` without regard to
/// case; answers 0 when a module's PE header cannot be read. Gives back the module's
/// name and the function's name in lower case when it finds the function.
pub fn GetProcAddress(emu: &mut Emu) -> (r: Option<(String, String)>)
    requires
        old(emu).maps.wf(),
        exists|fuel: nat|
            is_answer(#[trigger] proc_lookup(old(emu).maps@, old(emu).regs.rdx as int, fuel)),
    ensures
        forall|fuel: nat|
            is_answer(#[trigger] proc_lookup(old(emu).maps@, old(emu).regs.rdx as int, fuel))
                ==> {
                &&& final(emu).regs.rax == answer_value(
                    proc_lookup(old(emu).maps@, old(emu).regs.rdx as int, fuel),
                )
                &&& (r is Some <==> proc_lookup(
                    old(emu).maps@,
                    old(emu).regs.rdx as int,
                    fuel,
                ) is Found)
                &&& (r matches Some(names) ==> names.0@ == module_name(
                    old(emu).maps@,
                    proc_entry(old(emu).maps@, old(emu).regs.rdx as int, fuel),
                ))
            },
        r matches Some(names) ==> names.1@ == lower(
            string_from(old(emu).maps@, old(emu).regs.rdx as int),
        ),
        final(emu).regs.rcx == old(emu).regs.rcx,
        final(emu).regs.rdx == old(emu).regs.rdx,
        final(emu).maps@ == old(emu).maps@,
{
    let ghost s = emu.maps@;
    let func_ptr = emu.regs.rdx;
    let raw = emu.maps.read_string(func_ptr);
    proof {
        lemma_string_from_latin1(s, func_ptr as int);
        crate::emu::maps::lemma_name_index(s, "peb"@);
    }
    let func = to_lowercase(&raw);
    let ghost fuel = choose|fuel: nat| is_answer(#[trigger] proc_lookup(s, func_ptr as int, fuel));
    let peb = emu.maps.get_mem("peb");
    let peb_base = peb.get_base();
    let ldr = peb.read_qword(peb_base + 0x18);
    assert(emu.maps@ =~= s);
    let mut flink = must_qword(&emu.maps, ldr + 0x10);
    let ghost f0 = flink;
    let ghost mut left: nat = fuel;
    loop
        invariant
            emu.maps.wf(),
            emu.maps@ == s,
            emu.regs.rcx == old(emu).regs.rcx,
            emu.regs.rdx == old(emu).regs.rdx,
            func_ptr == emu.regs.rdx,
            s == old(emu).maps@,
            func@ == lower(string_from(s, func_ptr as int)),
            first_link(s) == Some(f0),
            walk(s, func@, flink as int, left) == walk(s, func@, f0 as int, fuel),
            walk_entry(s, func@, flink as int, left) == walk_entry(s, func@, f0 as int, fuel),
            is_answer(walk(s, func@, f0 as int, fuel)),
            proc_lookup(s, func_ptr as int, fuel) == walk(s, func@, f0 as int, fuel),
        decreases left,
    {
        let (step, mod_name) = visit_module(&emu.maps, &func, flink);
        proof {
            assert forall|k: nat|
                is_answer(#[trigger] proc_lookup(s, func_ptr as int, k)) implies proc_lookup(
                s,
                func_ptr as int,
                k,
            ) == proc_lookup(s, func_ptr as int, fuel) && proc_entry(s, func_ptr as int, k)
                == proc_entry(s, func_ptr as int, fuel) by {
                lemma_walk_answer_unique(s, func@, f0 as int, k, fuel);
            }
        }
        match step {
            ModuleStep::Found(va) => {
                emu.regs.rax = va;
                return Some((mod_name, func));
            },
            ModuleStep::Missing => {
                emu.regs.rax = 0;
                return None;
            },
            ModuleStep::Next(next) => {
                flink = next;
                proof {
                    left = (left - 1) as nat;
                }
            },
            ModuleStep::Stuck => {
                assert(false);
            },
        }
    }
}

/// The quad word at `a + off`, when the handler could go on past reading it.
fn get_qword(maps: &Maps, a: u64, off: u64) -> (r: Option<u64>)
    ensures
        r == need_qword(maps@, a + off),
{
    match a.checked_add(off) {
        None => None,
        Some(at) => if maps.has_room(at, 8) {
            maps.read_qword(at)
        } else {
            None
        },
    }
}

/// The double word at `a + off`, when the handler could go on past reading it.
fn get_dword(maps: &Maps, a: u64, off: u64) -> (r: Option<u32>)
    ensures
        r == need_dword(maps@, a + off),
{
    match a.checked_add(off) {
        None => None,
        Some(at) => if maps.has_room(at, 4) {
            maps.read_dword(at)
        } else {
            None
        },
    }
}

/// The word at `a + off`, when the handler could go on past reading it.
fn get_word(maps: &Maps, a: u64, off: u64) -> (r: Option<u16>)
    ensures
        r == need_word(maps@, a + off),
{
    match a.checked_add(off) {
        None => None,
        Some(at) => if maps.has_room(at, 2) {
            maps.read_word(at)
        } else {
            None
        },
    }
}

/// What reading the double word at `a + off` gives, when the read itself goes through.
fn get_dword_or_unmapped(maps: &Maps, a: u64, off: u64) -> (r: Option<Option<u32>>)
    ensures
        r == try_dword(maps@, a + off),
{
    match a.checked_add(off) {
        None => None,
        Some(at) => if maps.has_room(at, 4) {
            Some(maps.read_dword(at))
        } else {
            None
        },
    }
}

/// The first loader list entry, found as `GetProcAddress` finds it; `None` where it
/// could not go on.
pub fn first_link_checked(maps: &mut Maps) -> (r: Option<u64>)
    requires
        old(maps).wf(),
    ensures
        r == first_link(old(maps)@),
        final(maps)@ == old(maps)@,
{
    proof {
        crate::emu::maps::lemma_name_index(maps@, "peb"@);
    }
    if !maps.has_map("peb") {
        return None;
    }
    let ghost before = maps@;
    let peb = maps.get_mem("peb");
    let peb_base = peb.get_base();
    let ldr = match peb_base.checked_add(0x18) {
        None => None,
        Some(a) => if peb.get_bottom() >= 8 && a <= peb.get_bottom() - 8 {
            Some(peb.read_qword(a))
        } else {
            None
        },
    };
    assert(maps@ =~= before);
    match ldr {
        None => None,
        Some(l) => get_qword(maps, l, 0x10),
    }
}

/// Reading the export name table from entry `n - 1` down to entry 0 for `func`, as
/// `scan_names` describes it.
fn scan_names_checked(maps: &Maps, func: &String, base: u64, tbl: u64, n: u64) -> (r: Option<
    Option<u64>,
>)
    requires
        maps.wf(),
        n < 0x1_0000_0000,
    ensures
        match scan_names(maps@, func@, base as int, tbl as int, n as nat) {
            None => r is None,
            Some(None) => r == Some(None::<u64>),
            Some(Some(i)) => r == Some(Some(i as u64)),
        },
{
    let mut num = n;
    while num > 0
        invariant
            maps.wf(),
            num <= n,
            n < 0x1_0000_0000,
            scan_names(maps@, func@, base as int, tbl as int, n as nat) == scan_names(
                maps@,
                func@,
                base as int,
                tbl as int,
                num as nat,
            ),
        decreases num,
    {
        num = num - 1;
        let rva = match get_dword(maps, tbl, num * 4) {
            Some(v) => v as u64,
            None => {
                return None;
            },
        };
        let va = match rva.checked_add(base) {
            Some(v) => v,
            None => {
                return None;
            },
        };
        let raw_name = maps.read_string(va);
        proof {
            crate::emu::maps::lemma_string_from_latin1(maps@, va as int);
        }
        let func_name = to_lowercase(&raw_name);
        if func_name == *func {
            return Some(Some(num));
        }
    }
    Some(None)
}

/// The address export entry `idx` resolves to, as `resolve_export` describes it.
fn resolve_export_checked(maps: &Maps, base: u64, et: u64, idx: u64) -> (r: Option<u64>)
    requires
        idx < 0x1_0000_0000,
    ensures
        r == resolve_export(maps@, base as int, et as int, idx as int),
{
    let ord_rva = match get_dword(maps, et, 0x24) {
        Some(v) => v as u64,
        None => {
            return None;
        },
    };
    let ordinal_tbl = match ord_rva.checked_add(base) {
        Some(v) => v,
        None => {
            return None;
        },
    };
    let ordinal = match get_word(maps, ordinal_tbl, 2 * idx) {
        Some(v) => v as u64,
        None => {
            return None;
        },
    };
    let fat_rva = match get_dword(maps, et, 0x1c) {
        Some(v) => v as u64,
        None => {
            return None;
        },
    };
    let func_addr_tbl = match fat_rva.checked_add(base) {
        Some(v) => v,
        None => {
            return None;
        },
    };
    let func_rva = match get_dword(maps, func_addr_tbl, 4 * ordinal) {
        Some(v) => v as u64,
        None => {
            return None;
        },
    };
    func_rva.checked_add(base)
}

/// Moving on through the quad word at `flink`, as `follow_qword` describes it.
fn follow_qword_checked(maps: &Maps, flink: u64) -> (r: ModuleStep)
    ensures
        r == follow_qword(maps@, flink as int),
{
    match get_qword(maps, flink, 0) {
        Some(f) => ModuleStep::Next(f),
        None => ModuleStep::Stuck,
    }
}

/// Looks at the module whose loader list entry is at `flink` as `GetProcAddress`
/// does, answering `Stuck` where the handler could not go on.
pub fn module_step_checked(maps: &Maps, func: &String, flink: u64) -> (r: ModuleStep)
    requires
        maps.wf(),
    ensures
        r == module_step(maps@, func@, flink as int),
{
    let name_ptr = match get_qword(maps, flink, 0x60) {
        Some(v) => v,
        None => {
            return ModuleStep::Stuck;
        },
    };
    if get_qword(maps, flink, 0x50).is_none() {
        return ModuleStep::Stuck;
    }
    let base = match get_qword(maps, flink, 0x30) {
        Some(v) => v,
        None => {
            return ModuleStep::Stuck;
        },
    };
    if maps.wide_string_overruns(name_ptr) {
        return ModuleStep::Stuck;
    }
    let hdr = match get_dword_or_unmapped(maps, base, 0x3c) {
        None => {
            return ModuleStep::Stuck;
        },
        Some(None) => {
            return ModuleStep::Missing;
        },
        Some(Some(h)) => h as u64,
    };
    let base_hdr = match base.checked_add(hdr) {
        Some(v) => v,
        None => {
            return ModuleStep::Stuck;
        },
    };
    let et_rva = match get_dword(maps, base_hdr, 0x88) {
        Some(v) => v as u64,
        None => {
            return ModuleStep::Stuck;
        },
    };
    if et_rva == 0 {
        return follow_qword_checked(maps, flink);
    }
    let et = match et_rva.checked_add(base) {
        Some(v) => v,
        None => {
            return ModuleStep::Stuck;
        },
    };
    if !maps.is_mapped(et) {
        return follow_qword_checked(maps, flink);
    }
    let n = match get_dword(maps, et, 0x18) {
        Some(v) => v as u64,
        None => {
            return ModuleStep::Stuck;
        },
    };
    if n == 0 {
        return follow_qword_checked(maps, flink);
    }
    let tbl_rva = match get_dword(maps, et, 0x20) {
        Some(v) => v as u64,
        None => {
            return ModuleStep::Stuck;
        },
    };
    let tbl = match tbl_rva.checked_add(base) {
        Some(v) => v,
        None => {
            return ModuleStep::Stuck;
        },
    };
    proof {
        lemma_scan_names_index(maps@, func@, base as int, tbl as int, n as nat);
    }
    match scan_names_checked(maps, func, base, tbl, n) {
        None => ModuleStep::Stuck,
        Some(None) => match get_dword(maps, flink, 0) {
            Some(f) => ModuleStep::Next(f as u64),
            None => ModuleStep::Stuck,
        },
        Some(Some(idx)) => match resolve_export_checked(maps, base, et, idx) {
            Some(va) => ModuleStep::Found(va),
            None => ModuleStep::Stuck,
        },
    }
}

} // verus!
