use lib::emu::maps::Maps;
use lib::emu::winapi64::kernel32::{
    gateway, library_map_name, AreFileApiIsAnsi, BeginUpdateResourceA,
    CreateToolhelp32Snapshot, GetProcAddress, Kernel32Api, LStrCmpI, LoadLibraryA,
    Process32First, Process32Next, first_link_checked, module_step_checked, ModuleStep,
};
use lib::emu::{Emu, Regs64};

fn region(maps: &mut Maps, name: &str, base: u64, size: u64) {
    let m = maps.create_map(name);
    m.set_base(base);
    m.set_size(size);
}

fn put_cstr(maps: &mut Maps, addr: u64, s: &str) {
    maps.write_string(addr, s);
    assert!(maps.write_byte(addr + s.len() as u64, 0));
}

fn put_wide(maps: &mut Maps, addr: u64, s: &str) {
    for (i, b) in s.bytes().enumerate() {
        assert!(maps.write_word(addr + 2 * i as u64, b as u16));
    }
    assert!(maps.write_word(addr + 2 * s.len() as u64, 0));
}

fn emu(maps: Maps, rcx: u64, rdx: u64) -> Emu {
    Emu { regs: Regs64 { rax: 0xdead, rcx, rdx }, maps }
}

#[test]
fn gateway_knows_each_entry_point() {
    assert_eq!(gateway(0x76dc7070), Some(Kernel32Api::LoadLibraryA));
    assert_eq!(gateway(0x76dd3690), Some(Kernel32Api::GetProcAddress));
    assert_eq!(gateway(0x76db21e0), Some(Kernel32Api::CreateToolhelp32Snapshot));
    assert_eq!(gateway(0x76e0fdb0), Some(Kernel32Api::Process32First));
    assert_eq!(gateway(0x76e0fcc0), Some(Kernel32Api::Process32Next));
    assert_eq!(gateway(0x76db40a0), Some(Kernel32Api::LStrCmpI));
    assert_eq!(gateway(0x76dfc5d0), Some(Kernel32Api::AreFileApiIsAnsi));
    assert_eq!(gateway(0x76e3e420), Some(Kernel32Api::BeginUpdateResourceA));
}

#[test]
fn gateway_rejects_other_addresses() {
    assert_eq!(gateway(0), None);
    assert_eq!(gateway(0x76dc7071), None);
}

#[test]
fn library_map_name_accepts_both_spellings() {
    assert_eq!(library_map_name(&"ntdll".to_string()), Some("ntdll_pe"));
    assert_eq!(library_map_name(&"ws2_32.dll".to_string()), Some("ws2_32_pe"));
    assert_eq!(library_map_name(&"wininet".to_string()), Some("wininet_pe"));
    assert_eq!(library_map_name(&"advapi32.dll".to_string()), Some("advapi32_pe"));
    assert_eq!(library_map_name(&"kernel32.dll".to_string()), Some("kernel32_pe"));
    assert_eq!(library_map_name(&"user32.dll".to_string()), None);
    assert_eq!(library_map_name(&"NTDLL".to_string()), None);
}

#[test]
fn load_library_answers_image_base() {
    let mut maps = Maps::new();
    region(&mut maps, "kernel32_pe", 0x7700_0000, 0x10);
    region(&mut maps, "strings", 0x1000, 0x100);
    put_cstr(&mut maps, 0x1000, "KERNEL32.dll");
    let mut e = emu(maps, 0x1000, 7);
    let dll = LoadLibraryA(&mut e);
    assert_eq!(dll, "KERNEL32.dll");
    assert_eq!(e.regs.rax, 0x7700_0000);
    assert_eq!(e.regs.rdx, 7);
}

#[test]
fn lstrcmpi_compares_exactly() {
    let mut maps = Maps::new();
    region(&mut maps, "strings", 0x1000, 0x100);
    put_cstr(&mut maps, 0x1000, "abc");
    put_cstr(&mut maps, 0x1010, "abc");
    put_cstr(&mut maps, 0x1020, "ABC");
    let mut e = emu(maps, 0x1000, 0x1010);
    let (a, b) = LStrCmpI(&mut e);
    assert_eq!((a.as_str(), b.as_str()), ("abc", "abc"));
    assert_eq!(e.regs.rax, 0);
    e.regs.rdx = 0x1020;
    LStrCmpI(&mut e);
    assert_eq!(e.regs.rax, 1);
}

#[test]
fn process32_first_writes_entry_name() {
    let mut maps = Maps::new();
    region(&mut maps, "entry", 0x2000, 0x200);
    let mut e = emu(maps, 0x55, 0x2000);
    Process32First(&mut e, true);
    assert_eq!(e.regs.rax, 1);
    assert_eq!(e.maps.read_string(0x2000 + 36), "smss.exe");
    assert_eq!(e.maps.read_byte(0x2000 + 44), Some(0));
}

#[test]
fn process32_first_without_snapshot() {
    let mut maps = Maps::new();
    region(&mut maps, "entry", 0x2000, 0x200);
    let mut e = emu(maps, 0x55, 0x2000);
    Process32First(&mut e, false);
    assert_eq!(e.regs.rax, 0);
    assert_eq!(e.maps.read_byte(0x2000 + 36), Some(0));
}

#[test]
fn process32_next_ends_the_list() {
    let mut e = emu(Maps::new(), 1, 2);
    Process32Next(&mut e);
    assert_eq!(e.regs.rax, 0);
}

#[test]
fn are_file_apis_ansi() {
    let mut e = emu(Maps::new(), 1, 2);
    AreFileApiIsAnsi(&mut e);
    assert_eq!(e.regs.rax, 1);
}

#[test]
fn snapshot_and_resource_update_answer_handles() {
    let mut maps = Maps::new();
    region(&mut maps, "strings", 0x1000, 0x100);
    put_cstr(&mut maps, 0x1000, "out.exe");
    let mut e = emu(maps, 0x1000, 0);
    CreateToolhelp32Snapshot(&mut e, 5);
    assert_eq!(e.regs.rax, 5);
    let name = BeginUpdateResourceA(&mut e, 6);
    assert_eq!(name, "out.exe");
    assert_eq!(e.regs.rax, 6);
}

/// A process with two loaded modules: the first exports nothing, the second (the
/// kernel32 image at 0x10000) exports LoadLibraryA and GetProcAddress.
fn loaded_process() -> Maps {
    let mut maps = Maps::new();
    region(&mut maps, "peb", 0x1000, 0x100);
    region(&mut maps, "ldr", 0x2000, 0x100);
    region(&mut maps, "entries", 0x3000, 0x200);
    region(&mut maps, "names", 0x5000, 0x100);
    region(&mut maps, "request", 0x6000, 0x100);
    region(&mut maps, "exe_pe", 0x8000, 0x200);
    region(&mut maps, "kernel32_pe", 0x10000, 0x1000);
    maps.write_qword(0x1018, 0x2000);
    maps.write_qword(0x2010, 0x3000);
    // first entry: an image with no export directory
    maps.write_qword(0x3000, 0x3100);
    maps.write_qword(0x3030, 0x8000);
    maps.write_qword(0x3050, 0x5040);
    maps.write_qword(0x3060, 0x5040);
    put_wide(&mut maps, 0x5040, "app.exe");
    maps.write_dword(0x803c, 0x80);
    // second entry: kernel32
    maps.write_qword(0x3100, 0x3000);
    maps.write_qword(0x3130, 0x10000);
    maps.write_qword(0x3150, 0x5000);
    maps.write_qword(0x3160, 0x5000);
    put_wide(&mut maps, 0x5000, "kernel32.dll");
    maps.write_dword(0x1003c, 0x80);
    maps.write_dword(0x10108, 0x200);
    maps.write_dword(0x10218, 2);
    maps.write_dword(0x1021c, 0x600);
    maps.write_dword(0x10220, 0x300);
    maps.write_dword(0x10224, 0x500);
    maps.write_dword(0x10300, 0x400);
    maps.write_dword(0x10304, 0x410);
    put_cstr(&mut maps, 0x10400, "LoadLibraryA");
    put_cstr(&mut maps, 0x10410, "GetProcAddress");
    maps.write_word(0x10500, 1);
    maps.write_word(0x10502, 0);
    maps.write_dword(0x10600, 0x2222);
    maps.write_dword(0x10604, 0x1111);
    maps
}

#[test]
fn get_proc_address_finds_export_ignoring_case() {
    let mut maps = loaded_process();
    put_cstr(&mut maps, 0x6000, "GETPROCADDRESS");
    let mut e = emu(maps, 0x10000, 0x6000);
    let r = GetProcAddress(&mut e);
    assert_eq!(e.regs.rax, 0x12222);
    let (module, func) = r.unwrap();
    assert_eq!(module, "kernel32.dll");
    assert_eq!(func, "getprocaddress");
}

#[test]
fn get_proc_address_uses_ordinal_table() {
    let mut maps = loaded_process();
    put_cstr(&mut maps, 0x6000, "LoadLibraryA");
    let mut e = emu(maps, 0x10000, 0x6000);
    GetProcAddress(&mut e);
    assert_eq!(e.regs.rax, 0x11111);
}

#[test]
fn get_proc_address_answers_zero_for_unreadable_header() {
    let mut maps = loaded_process();
    put_cstr(&mut maps, 0x6000, "Missing");
    maps.write_qword(0x3030, 0x9_0000);
    let mut e = emu(maps, 0x10000, 0x6000);
    assert!(GetProcAddress(&mut e).is_none());
    assert_eq!(e.regs.rax, 0);
}

#[test]
fn qword_read_after_write_is_little_endian() {
    let mut maps = Maps::new();
    region(&mut maps, "a", 0x1_0000_0000, 0x10);
    assert!(maps.write_qword(0x1_0000_0004, 0x1122_3344_5566_7788));
    assert_eq!(maps.read_qword(0x1_0000_0004), Some(0x1122_3344_5566_7788));
    assert_eq!(maps.read_byte(0x1_0000_0004), Some(0x88));
    assert_eq!(maps.read_dword(0x1_0000_0008), Some(0x1122_3344));
    assert_eq!(maps.read_qword(0x5000), None);
    assert!(!maps.write_qword(0x5000, 1));
}

#[test]
fn write_string_skips_unmapped_bytes() {
    let mut maps = Maps::new();
    region(&mut maps, "a", 0x1000, 0x3);
    maps.write_string(0x1001, "xyz");
    assert_eq!(maps.read_byte(0x1001), Some(b'x'));
    assert_eq!(maps.read_byte(0x1002), Some(b'y'));
    assert_eq!(maps.read_byte(0x1003), None);
    assert_eq!(maps.read_string(0x1001), "xy");
}

#[test]
fn has_map_by_name() {
    let mut maps = Maps::new();
    region(&mut maps, "peb", 0x1000, 0x10);
    assert!(maps.has_map("peb"));
    assert!(!maps.has_map("teb"));
}

#[test]
fn wide_string_in_64_bit_memory() {
    let mut maps = Maps::new();
    region(&mut maps, "a", 0x7fff_0000_0000, 0x20);
    put_wide(&mut maps, 0x7fff_0000_0000, "dll");
    assert_eq!(maps.read_wide_string(0x7fff_0000_0000), "dll");
}

#[test]
fn string_read_after_write() {
    let mut maps = Maps::new();
    region(&mut maps, "a", 0x4000, 0x20);
    maps.write_string(0x4004, "hello");
    assert_eq!(maps.read_string(0x4004), "hello");
    assert_eq!(maps.read_string(0x4006), "llo");
}

#[test]
fn checked_walk_follows_module_list() {
    let mut maps = loaded_process();
    assert_eq!(first_link_checked(&mut maps), Some(0x3000));
    let func = "getprocaddress".to_string();
    assert_eq!(module_step_checked(&maps, &func, 0x3000), ModuleStep::Next(0x3100));
    assert_eq!(module_step_checked(&maps, &func, 0x3100), ModuleStep::Found(0x12222));
    let other = "nosuchfunction".to_string();
    assert_eq!(module_step_checked(&maps, &other, 0x3100), ModuleStep::Next(0x3000));
    assert_eq!(module_step_checked(&maps, &func, 0x7000), ModuleStep::Stuck);
}

#[test]
fn checked_first_link_without_peb() {
    let mut maps = Maps::new();
    region(&mut maps, "ldr", 0x2000, 0x100);
    assert_eq!(first_link_checked(&mut maps), None);
}

#[test]
fn checked_walk_answers_missing_for_unreadable_header() {
    let mut maps = loaded_process();
    maps.write_qword(0x3030, 0x9_0000);
    assert_eq!(module_step_checked(&maps, &"x".to_string(), 0x3000), ModuleStep::Missing);
}
