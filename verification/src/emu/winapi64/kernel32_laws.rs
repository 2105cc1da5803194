use vstd::prelude::*;
use crate::emu::maps::{
    MapsView, is_mapped_spec, string_from, wide_overruns, qword_at, dword_at, word_at,
};
use crate::emu::winapi64::kernel32::{
    ModuleStep, need_qword, need_dword, try_dword, module_step, walk, walk_entry, first_link,
    proc_lookup, proc_entry, scan_names, library_map,
};
use crate::strings::lower;

verus! {

/// The module whose loader list entry is at `e` exports nothing `GetProcAddress` can
/// use: its entry and header can be read, and its export directory's RVA is 0, or
/// the directory lies where no region holds it, or it lists no names; and the entry's
/// forward link can be read.
pub open spec fn exports_nothing(s: MapsView, e: int) -> bool {
    &&& need_qword(s, e + 0x60) is Some
    &&& need_qword(s, e + 0x50) is Some
    &&& need_qword(s, e + 0x30) is Some
    &&& !wide_overruns(s, need_qword(s, e + 0x60)->0 as int)
    &&& {
        let b = need_qword(s, e + 0x30)->0 as int;
        &&& try_dword(s, b + 0x3c) matches Some(Some(h))
        &&& need_dword(s, b + h + 0x88) matches Some(r) && ({
            ||| r == 0
            ||| r + b <= u64::MAX && !is_mapped_spec(s, r + b)
            ||| r + b <= u64::MAX && is_mapped_spec(s, r + b) && need_dword(s, r + b + 0x18)
                == Some(0u32)
        })
    }
    &&& need_qword(s, e) is Some
}

/// A module that exports nothing is skipped: the walk goes on from the entry its
/// 64-bit forward link names, one step later, and stops where that walk stops.
pub proof fn law_module_without_exports_is_skipped(
    s: MapsView,
    func: Seq<char>,
    e: int,
    fuel: nat,
)
    requires
        exports_nothing(s, e),
    ensures
        module_step(s, func, e) == ModuleStep::Next(need_qword(s, e)->0),
        walk(s, func, e, fuel + 1) == walk(s, func, need_qword(s, e)->0 as int, fuel),
        walk_entry(s, func, e, fuel + 1) == walk_entry(s, func, need_qword(s, e)->0 as int, fuel),
{
}

/// When the first loader entry exports nothing, `GetProcAddress` answers, one step
/// later, as it would if the list began at that entry's forward link.
pub proof fn law_lookup_skips_first_module(s: MapsView, func_ptr: int, fuel: nat)
    requires
        first_link(s) is Some,
        exports_nothing(s, first_link(s)->0 as int),
    ensures
        ({
            let e = first_link(s)->0 as int;
            let next = need_qword(s, e)->0 as int;
            let func = lower(string_from(s, func_ptr));
            &&& proc_lookup(s, func_ptr, fuel + 1) == walk(s, func, next, fuel)
            &&& proc_entry(s, func_ptr, fuel + 1) == walk_entry(s, func, next, fuel)
        }),
{
    let e = first_link(s)->0 as int;
    law_module_without_exports_is_skipped(s, lower(string_from(s, func_ptr)), e, fuel);
}

/// The name, in lower case, that entry `j` of the export name table at `tbl` points
/// to in the module at `base`: the 32-bit RVA at `tbl + 4 * j`, plus `base`.
pub open spec fn export_name(s: MapsView, base: int, tbl: int, j: int) -> Seq<char> {
    lower(string_from(s, dword_at(s, tbl + 4 * j)->0 + base))
}

/// A name table scan that finds `func` finds it at the highest entry below `k` whose
/// name reads `func`.
proof fn lemma_scan_names_found(s: MapsView, func: Seq<char>, base: int, tbl: int, k: nat)
    requires
        scan_names(s, func, base, tbl, k) matches Some(Some(i)),
    ensures
        ({
            let i = scan_names(s, func, base, tbl, k)->0->0;
            &&& 0 <= i < k
            &&& dword_at(s, tbl + 4 * i) is Some
            &&& export_name(s, base, tbl, i) == func
            &&& forall|j: int| i < j < k ==> #[trigger] export_name(s, base, tbl, j) != func
        }),
    decreases k,
{
    let idx = k - 1;
    let rva = need_dword(s, tbl + 4 * idx)->0;
    if lower(string_from(s, rva + base)) != func {
        lemma_scan_names_found(s, func, base, tbl, idx as nat);
        let i = scan_names(s, func, base, tbl, k)->0->0;
        assert forall|j: int| i < j < k implies #[trigger] export_name(s, base, tbl, j) != func by {
            if j == idx {
                assert(export_name(s, base, tbl, j) == lower(string_from(s, rva + base)));
            }
        }
    }
}

/// Where `GetProcAddress` finds `func` in the module whose loader list entry is at
/// `flink`, the answer is read from that module's export tables: the result `i` is
/// the last entry of the name table whose name reads `func` in lower case; the
/// ordinal of that export is the 16-bit word at `ordinal table + 2 * i`, and the
/// answer is the module's base plus the 32-bit entry at `address table + 4 *
/// ordinal`. The base is the quad word at `flink + 0x30`, the PE header offset the
/// double word at `base + 0x3c`, the export directory `et` is the double word at
/// `base + header + 0x88` plus the base, and the directory holds the name count and
/// the RVAs of the name, address and ordinal tables at 0x18, 0x20, 0x1c and 0x24.
pub proof fn law_found_export_address(s: MapsView, func: Seq<char>, flink: int) -> (i: int)
    requires
        module_step(s, func, flink) is Found,
    ensures
        ({
            let b = qword_at(s, flink + 0x30)->0 as int;
            let h = dword_at(s, b + 0x3c)->0 as int;
            let et = dword_at(s, b + h + 0x88)->0 + b;
            let n = dword_at(s, et + 0x18)->0 as int;
            let names = dword_at(s, et + 0x20)->0 + b;
            let addrs = dword_at(s, et + 0x1c)->0 + b;
            let ords = dword_at(s, et + 0x24)->0 + b;
            &&& 0 <= i < n
            &&& export_name(s, b, names, i) == func
            &&& forall|j: int| i < j < n ==> #[trigger] export_name(s, b, names, j) != func
            &&& word_at(s, ords + 2 * i) is Some
            &&& dword_at(s, addrs + 4 * word_at(s, ords + 2 * i)->0) is Some
            &&& module_step(s, func, flink) == ModuleStep::Found(
                (dword_at(s, addrs + 4 * word_at(s, ords + 2 * i)->0)->0 + b) as u64,
            )
        }),
{
    let b = need_qword(s, flink + 0x30)->0 as int;
    let h = try_dword(s, b + 0x3c)->0->0 as int;
    let et = need_dword(s, b + h + 0x88)->0 + b;
    let n = need_dword(s, et + 0x18)->0;
    let names = need_dword(s, et + 0x20)->0 + b;
    lemma_scan_names_found(s, func, b, names, n as nat);
    scan_names(s, func, b, names, n as nat)->0->0
}

/// A walk that finds the function finds it in the module it stops at: that module's
/// own step is the walk's answer.
proof fn lemma_walk_found_at_entry(s: MapsView, func: Seq<char>, flink: int, fuel: nat)
    requires
        walk(s, func, flink, fuel) is Found,
    ensures
        module_step(s, func, walk_entry(s, func, flink, fuel)) == walk(s, func, flink, fuel),
    decreases fuel,
{
    if fuel > 0 {
        match module_step(s, func, flink) {
            ModuleStep::Next(f) => lemma_walk_found_at_entry(s, func, f as int, (fuel - 1) as nat),
            _ => {},
        }
    }
}

/// When `GetProcAddress` finds the function named at `func_ptr`, its answer is read
/// from the export tables of the module it stopped at, as `law_found_export_address`
/// describes for that module's loader list entry.
pub proof fn law_lookup_answer_from_exports(s: MapsView, func_ptr: int, fuel: nat)
    requires
        proc_lookup(s, func_ptr, fuel) is Found,
    ensures
        module_step(s, lower(string_from(s, func_ptr)), proc_entry(s, func_ptr, fuel)) == proc_lookup(
            s,
            func_ptr,
            fuel,
        ),
{
    lemma_walk_found_at_entry(s, lower(string_from(s, func_ptr)), first_link(s)->0 as int, fuel);
}

/// The libraries whose images the emulator maps.
pub open spec fn known_library(stem: Seq<char>) -> bool {
    ||| stem == "ntdll"@
    ||| stem == "ws2_32"@
    ||| stem == "wininet"@
    ||| stem == "advapi32"@
    ||| stem == "kernel32"@
}

/// `LoadLibraryA` finds each known library by its lower-case name, with or without
/// `.dll`, in the map named after it with `_pe`; a name it finds is always one of
/// these, found in that library's map and in no other.
pub proof fn law_library_map(dll: Seq<char>)
    ensures
        known_library(dll) ==> library_map(dll) == Some(dll + "_pe"@),
        known_library(dll) ==> library_map(dll + ".dll"@) == Some(dll + "_pe"@),
        library_map(dll) matches Some(m) ==> exists|stem: Seq<char>|
            #[trigger] known_library(stem) && (dll == stem || dll == stem + ".dll"@) && m == stem
                + "_pe"@,
{
    reveal_strlit("ntdll");
    reveal_strlit("ntdll.dll");
    reveal_strlit("ntdll_pe");
    reveal_strlit("ws2_32");
    reveal_strlit("ws2_32.dll");
    reveal_strlit("ws2_32_pe");
    reveal_strlit("wininet");
    reveal_strlit("wininet.dll");
    reveal_strlit("wininet_pe");
    reveal_strlit("advapi32");
    reveal_strlit("advapi32.dll");
    reveal_strlit("advapi32_pe");
    reveal_strlit("kernel32");
    reveal_strlit("kernel32.dll");
    reveal_strlit("kernel32_pe");
    reveal_strlit(".dll");
    reveal_strlit("_pe");
    assert("ntdll"@ + ".dll"@ =~= "ntdll.dll"@);
    assert("ntdll"@ + "_pe"@ =~= "ntdll_pe"@);
    assert("ws2_32"@ + ".dll"@ =~= "ws2_32.dll"@);
    assert("ws2_32"@ + "_pe"@ =~= "ws2_32_pe"@);
    assert("wininet"@ + ".dll"@ =~= "wininet.dll"@);
    assert("wininet"@ + "_pe"@ =~= "wininet_pe"@);
    assert("advapi32"@ + ".dll"@ =~= "advapi32.dll"@);
    assert("advapi32"@ + "_pe"@ =~= "advapi32_pe"@);
    assert("kernel32"@ + ".dll"@ =~= "kernel32.dll"@);
    assert("kernel32"@ + "_pe"@ =~= "kernel32_pe"@);
    assert(known_library("ntdll"@));
    assert(known_library("ws2_32"@));
    assert(known_library("wininet"@));
    assert(known_library("advapi32"@));
    assert(known_library("kernel32"@));
    if known_library(dll) {
        assert(dll + ".dll"@ =~= dll + ".dll"@);
        if dll == "ntdll"@ {
            assert(dll + ".dll"@ == "ntdll.dll"@);
            assert(library_map("ntdll.dll"@) == Some("ntdll_pe"@));
        } else if dll == "ws2_32"@ {
            assert(dll + ".dll"@ == "ws2_32.dll"@);
            assert(library_map("ws2_32.dll"@) == Some("ws2_32_pe"@));
        } else if dll == "wininet"@ {
            assert(dll + ".dll"@ == "wininet.dll"@);
            assert(library_map("wininet.dll"@) == Some("wininet_pe"@));
        } else if dll == "advapi32"@ {
            assert(dll + ".dll"@ == "advapi32.dll"@);
            assert(library_map("advapi32.dll"@) == Some("advapi32_pe"@));
        } else {
            assert(dll + ".dll"@ == "kernel32.dll"@);
            assert("kernel32.dll"@[0] != "advapi32.dll"@[0]);
            assert(library_map("kernel32.dll"@) == Some("kernel32_pe"@));
        }
    }
}

} // verus!
