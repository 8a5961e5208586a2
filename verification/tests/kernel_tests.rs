use lib::cc::{expand_includes, Included};
use lib::editor::{insert_position, parse_ed_command, EdCommand, EditBuffer};
use lib::elf::{is_elf, load, program_headers_fit, ElfError};
use lib::fat16::{name_from_83, name_to_83, Fat16, MountError};
use lib::fat16_vfs::{fat16_vfs_finddir, fat16_vfs_read, fat16_vfs_readdir, fat16_vfs_write, init as disk_dir_init};
use lib::idt::{format_hex, idt_gate, isr_action, Handlers, IsrAction};
use lib::keyboard::Keyboard;
use lib::pci::{config16_of, config16_put, enable_bus_mastering, pci_address, PciRequest, PciScan};
use lib::shell::{http_request, parse_command, parse_ip, split_at_space, Command, LineEditor, LineEvent};
use lib::sync::{Mutex, Spinlock};
use lib::syscall::{brk_plan, fstat, getcwd, getdents64, mmap_plan, random_bytes, syscall_i386, syscall_x64, Syscall};
use lib::syscall::{sys_arch_prctl, sys_mkdir, sys_read, sys_rename, sys_unlink, sys_write, ReadAction, WriteAction};
use lib::thread::{Scheduler, ThreadState};
use lib::vfs::{Vfs, WriteResult};

// ---- include expansion ----

fn vfs_with(files: &[(&str, &str)]) -> Vfs {
    let mut v = Vfs::new();
    for (name, text) in files {
        let mut n = name.as_bytes().to_vec();
        n.push(0);
        let f = v.create_file(&n).unwrap();
        assert!(matches!(v.write(f, 0, text.as_bytes()), WriteResult::Done(_)));
    }
    v
}

#[test]
fn include_is_spliced_in() {
    let v = vfs_with(&[("defs.h", "int x;\n")]);
    let mut inc = Included::new();
    let (r, _) = expand_includes(&v, &mut inc, b"#include \"defs.h\"\nmain\n", 0, 1000);
    assert_eq!(r.unwrap(), b"int x;\nmain\n".to_vec());
    assert_eq!(inc.names.len(), 1);
}

#[test]
fn include_once_and_nested() {
    let v = vfs_with(&[("a.h", "#include \"b.h\"\nA\n"), ("b.h", "B\n")]);
    let mut inc = Included::new();
    let src = b"  #  include \"a.h\"\n#include \"b.h\"\nend";
    let (r, _) = expand_includes(&v, &mut inc, src, 0, 1000);
    assert_eq!(r.unwrap(), b"B\nA\nend".to_vec());
}

#[test]
fn include_errors() {
    let v = vfs_with(&[("self.h", "#include \"self.h\"\nS\n")]);
    let mut inc = Included::new();
    let (r, _) = expand_includes(&v, &mut inc, b"#include \"missing.h\"\n", 0, 1000);
    assert!(r.is_none());
    // A file including itself is cut off by the once-only rule.
    let mut inc2 = Included::new();
    let (r2, _) = expand_includes(&v, &mut inc2, b"#include \"self.h\"\n", 0, 1000);
    assert_eq!(r2.unwrap(), b"S\n".to_vec());
    // Too deep.
    let mut inc3 = Included::new();
    let (r3, _) = expand_includes(&v, &mut inc3, b"x\n", 9, 1000);
    assert!(r3.is_none());
    // An empty name is left as it is.
    let mut inc4 = Included::new();
    let (r4, _) = expand_includes(&v, &mut inc4, b"#include \"\"\n", 0, 1000);
    assert_eq!(r4.unwrap(), b"#include \"\"\n".to_vec());
}

// ---- ELF ----

fn elf32(entry: u32, segs: &[(u32, u32, u32, u32, u32)]) -> Vec<u8> {
    // segs: (type, offset, vaddr, filesz, memsz)
    let mut d = vec![0u8; 52];
    d[0..4].copy_from_slice(&[0x7f, b'E', b'L', b'F']);
    d[4] = 1;
    d[5] = 1;
    d[16..18].copy_from_slice(&2u16.to_le_bytes());
    d[18..20].copy_from_slice(&3u16.to_le_bytes());
    d[24..28].copy_from_slice(&entry.to_le_bytes());
    d[28..32].copy_from_slice(&52u32.to_le_bytes());
    d[42..44].copy_from_slice(&32u16.to_le_bytes());
    d[44..46].copy_from_slice(&(segs.len() as u16).to_le_bytes());
    for (t, off, va, fs, ms) in segs {
        let mut p = vec![0u8; 32];
        p[0..4].copy_from_slice(&t.to_le_bytes());
        p[4..8].copy_from_slice(&off.to_le_bytes());
        p[8..12].copy_from_slice(&va.to_le_bytes());
        p[16..20].copy_from_slice(&fs.to_le_bytes());
        p[20..24].copy_from_slice(&ms.to_le_bytes());
        d.extend_from_slice(&p);
    }
    d.resize(200, 0);
    d
}

#[test]
fn elf_plan_for_a_good_file() {
    let d = elf32(0x40_0000, &[(1, 0, 0x40_0000, 100, 0x1800), (4, 0, 0, 0, 0)]);
    assert!(is_elf(&d));
    assert!(program_headers_fit(&d));
    let plan = load(&d);
    assert_eq!(plan.segments.len(), 1);
    assert_eq!(plan.segments[0].map_start, 0x40_0000);
    assert_eq!(plan.segments[0].map_end, 0x40_2000);
    assert!(!plan.segments[0].needs_map);
    let info = plan.result.ok().unwrap();
    assert_eq!(info.entry, 0x40_0000);
    assert_eq!(info.brk, 0x40_2000);
}

#[test]
fn elf_errors() {
    assert!(load(&[0u8; 8]).result.err().unwrap() == ElfError::TooSmall);
    assert!(load(&[0u8; 20]).result.err().unwrap() == ElfError::BadMagic);
    let mut d = elf32(0, &[(1, 0, 0x1000, 10, 10)]);
    d[5] = 2;
    assert!(load(&d).result.err().unwrap() == ElfError::NotLittleEndian);
    d[5] = 1;
    d[4] = 3;
    assert!(load(&d).result.err().unwrap() == ElfError::UnsupportedClass);
    d[4] = 1;
    d[18] = 62;
    assert!(load(&d).result.err().unwrap() == ElfError::NotI386);
    let past = elf32(0, &[(1, 0, 0x1000, 10, 10), (1, 150, 0x2000, 100, 100)]);
    let plan = load(&past);
    assert!(plan.result.err().unwrap() == ElfError::SegmentPastFile);
    assert_eq!(plan.segments.len(), 1);
    let none = elf32(0, &[(2, 0, 0x1000, 10, 10)]);
    assert!(load(&none).result.err().unwrap() == ElfError::NoLoadableSegments);
    let zero = elf32(0, &[]);
    assert!(load(&zero).result.err().unwrap() == ElfError::NoProgramHeaders);
    assert_eq!(ElfError::BadMagic.message(), "ELF: bad magic");
}

// ---- threads ----

#[test]
fn scheduler_round_robin() {
    let mut s = Scheduler::init();
    assert_eq!(s.get_count(), 1);
    assert_eq!(s.get_current(), 0);
    let (id1, frame) = s.create(0x10_0000, 0x5000, 0x6000);
    assert_eq!(id1, 1);
    assert_eq!(frame, vec![0, 0, 0, 0, 0, 0, 0x5000, 0x6000]);
    assert_eq!(s.threads[1].rsp, 0x10_0000 + 4096 - 64);
    let (id2, _) = s.create(0x20_0000, 0x5000, 0x6000);
    assert_eq!(id2, 2);
    assert_eq!(s.get_count(), 3);
    let sw = s.schedule();
    assert_eq!(sw.switch, Some((0, 1)));
    assert!(s.threads[0].state == ThreadState::Ready);
    assert!(s.threads[1].state == ThreadState::Running);
    let sw = s.exit();
    assert_eq!(sw.switch, Some((1, 2)));
    assert_eq!(s.pending_free, 0);
    assert_eq!(sw.free_stack, Some(0x10_0000));
    assert!(!s.is_alive(1));
    assert!(s.is_alive(2));
    assert_eq!(s.get_by_id(2).unwrap().stack_base, 0x20_0000);
    assert!(s.get(32).is_none());
}

#[test]
fn scheduler_table_full() {
    let mut s = Scheduler::init();
    for i in 1..32 {
        assert_eq!(s.create(0x1000 * i as u64, 1, 2).0, i);
    }
    assert!(!s.has_free_slot());
    assert_eq!(s.create(0x9000_0000, 1, 2).0, -1);
}

// ---- keyboard ----

#[test]
fn keyboard_decodes_and_queues_in_order() {
    let mut k = Keyboard::init();
    assert!(!k.data_ready());
    k.handle_scancode(0x23); // h
    k.handle_scancode(0x2a); // shift down
    k.handle_scancode(0x17); // I
    k.handle_scancode(0xaa); // shift up
    k.handle_scancode(0x97); // release: ignored
    k.handle_scancode(0x3a); // caps lock: no character
    k.handle_scancode(0x02); // 1
    assert_eq!(k.try_getchar(), Some(b'h'));
    assert_eq!(k.try_getchar(), Some(b'I'));
    assert_eq!(k.try_getchar(), Some(b'1'));
    assert_eq!(k.try_getchar(), None);
}

#[test]
fn keyboard_buffer_keeps_255() {
    let mut k = Keyboard::init();
    for _ in 0..300 {
        k.handle_scancode(0x1e);
    }
    let mut n = 0;
    while k.try_getchar().is_some() {
        n += 1;
    }
    assert_eq!(n, 255);
}

// ---- PCI ----

#[test]
fn pci_addresses_and_registers() {
    assert_eq!(pci_address(0, 3, 0, 0x10), 0x8000_1810);
    assert_eq!(pci_address(1, 0x3f, 9, 0x3f), 0x8001_f93c);
    assert_eq!(config16_of(0x1234_5678, 0), 0x5678);
    assert_eq!(config16_of(0x1234_5678, 2), 0x1234);
    assert_eq!(config16_put(0x1234_5678, 2, 0xabcd), 0xabcd_5678);
}

#[test]
fn pci_scan_finds_device() {
    let (mut scan, first) = PciScan::find_device(0x10ec, 0x8139);
    assert!(matches!(first, PciRequest::Read { bus: 0, device: 0, function: 0, offset: 0 }));
    assert_eq!(scan.bar0, 0);
    // No function at 0:0.0, then a different device at 0:0.1.
    assert!(matches!(scan.step(0xffff_ffff), PciRequest::Read { bus: 0, device: 0, function: 1, offset: 0 }));
    assert!(matches!(scan.step(0x1234_8086), PciRequest::Read { bus: 0, device: 0, function: 2, offset: 0 }));
    assert!(matches!(scan.step(0x8139_10ec), PciRequest::Read { bus: 0, device: 0, function: 2, offset: 0x10 }));
    assert!(matches!(scan.step(0xc001), PciRequest::Read { offset: 0x3c, .. }));
    match scan.step(0x0000_010b) {
        PciRequest::Found(d) => {
            assert_eq!(d.function, 2);
            assert_eq!(d.bar0, 0xc000);
            assert_eq!(d.irq_line, 11);
            let w = enable_bus_mastering(&d, 0x0003);
            assert_eq!(w.value, 0x0007);
            assert_eq!(w.offset, 4);
        }
        _ => panic!(),
    }
}

// ---- locks ----

#[test]
fn mutex_excludes_other_threads() {
    let mut m = Mutex::new();
    assert!(m.try_lock(1));
    assert!(m.try_lock(1));
    assert!(!m.try_lock(2));
    assert_eq!(m.owner, 1);
    m.unlock();
    assert!(m.try_lock(2));
    let mut s = Spinlock::new();
    s.lock(0x202);
    assert_eq!(s.locked, 1);
    assert_eq!(s.unlock(), 0x202);
    assert_eq!(s.locked, 0);
}

// ---- interrupts ----

#[test]
fn interrupt_decisions() {
    assert_eq!(format_hex(0xdead_beef), b"0xDEADBEEF".to_vec());
    assert_eq!(format_hex(0x1a), b"0x0000001A".to_vec());
    assert!(isr_action(14, 0x00a0_0010) == IsrAction::KillThread);
    assert!(isr_action(14, 0x0010_0000) == IsrAction::Halt);
    assert!(isr_action(33, 0) == IsrAction::Dispatch(Some(1)));
    assert!(isr_action(128, 0) == IsrAction::Dispatch(None));
    let g = idt_gate(0x1234_5678);
    assert_eq!(g.offset_low, 0x5678);
    assert_eq!(g.offset_high, 0x1234);
    assert_eq!(g.type_attr, 0x8e);
    let mut h: Handlers<u8> = Handlers::new();
    h.register_handler(33, 7);
    assert_eq!(h.handler(33), Some(7));
    assert_eq!(h.handler(34), None);
    assert_eq!(h.handler(300), None);
}

// ---- FAT16 ----

fn fat_disk(sectors: usize) -> Vec<u8> {
    let mut d = vec![0u8; sectors * 512];
    d[11..13].copy_from_slice(&512u16.to_le_bytes());
    d[13] = 1; // sectors per cluster
    d[14..16].copy_from_slice(&1u16.to_le_bytes()); // reserved
    d[16] = 2; // FATs
    d[17..19].copy_from_slice(&16u16.to_le_bytes()); // root entries
    d[22..24].copy_from_slice(&1u16.to_le_bytes()); // FAT sectors
    for fat in 0..2 {
        let base = (1 + fat) * 512;
        d[base..base + 4].copy_from_slice(&[0xf8, 0xff, 0xff, 0xff]);
    }
    d
}

#[test]
fn fat_names() {
    assert_eq!(name_to_83(b"hello.c\0"), b"HELLO   C  ".to_vec());
    assert_eq!(name_to_83(b"averylongname.text\0"), b"AVERYLONTEX".to_vec());
    assert_eq!(name_to_83(b"noext\0"), b"NOEXT      ".to_vec());
    assert_eq!(name_from_83(b"HELLO   C  "), b"HELLO.C".to_vec());
    assert_eq!(name_from_83(b"NOEXT      "), b"NOEXT".to_vec());
}

#[test]
fn fat_mount_errors() {
    assert!(Fat16::mount(vec![0u8; 100]).err().unwrap() == MountError::NoBootSector);
    let mut d = fat_disk(64);
    d[12] = 0;
    assert!(Fat16::mount(d).err().unwrap() == MountError::BadSectorSize);
    let mut d2 = fat_disk(64);
    d2[16] = 0;
    assert!(Fat16::mount(d2).err().unwrap() == MountError::BadBpb);
    let mut d3 = fat_disk(64);
    d3.truncate(1000);
    assert!(Fat16::mount(d3).err().unwrap() == MountError::NoFat);
}

#[test]
fn fat_write_then_read() {
    let mut f = Fat16::mount(fat_disk(64)).ok().unwrap();
    assert_eq!(f.get_file_count(), 0);
    let data: Vec<u8> = (0..700u32).map(|i| (i % 251) as u8).collect();
    assert_eq!(f.write_file(b"hello.c\0", &data), 0);
    assert_eq!(f.read_file(b"hello.c\0", 65536).unwrap(), data);
    assert_eq!(f.read_file(b"HELLO.C\0", 10).unwrap(), data[..10].to_vec());
    assert_eq!(f.get_file_count(), 1);
    assert_eq!(f.get_file_name(0, 13).unwrap(), b"HELLO.C".to_vec());
    assert_eq!(f.get_file_name(0, 12), None);
    assert_eq!(f.get_file_size(0), 700);
    assert_eq!(f.get_file_size(1), 0);
    assert_eq!(f.list_files(), vec![(b"HELLO.C".to_vec(), 700)]);
    // Clusters 2 and 3 hold it; both FAT copies say so on disk.
    assert_eq!(f.fat[2], 3);
    assert_eq!(f.fat[3], 0xffff);
    assert_eq!(f.disk[512 + 4], 3);
    assert_eq!(f.disk[1024 + 4], 3);
    // Overwrite with less: the old chain is freed first.
    assert_eq!(f.write_file(b"hello.c\0", b"short"), 0);
    assert_eq!(f.read_file(b"hello.c\0", 100).unwrap(), b"short".to_vec());
    assert_eq!(f.fat[3], 0);
    assert!(f.read_file(b"other\0", 100).is_none());
    assert_eq!(f.write_file(b"empty\0", b""), 0);
    assert_eq!(f.read_file(b"empty\0", 100).unwrap(), Vec::<u8>::new());
}

#[test]
fn fat_disk_full() {
    let mut f = Fat16::mount(fat_disk(8)).ok().unwrap();
    // Data starts at sector 4: four clusters fit on the image.
    let big = vec![7u8; 512 * 6];
    assert_eq!(f.write_file(b"big\0", &big), -1);
    for i in 0..16 {
        let name = format!("f{}\0", i);
        assert_eq!(f.write_file(name.as_bytes(), b""), 0);
    }
    assert_eq!(f.write_file(b"onemore\0", b""), -1);
}

// ---- shell ----

#[test]
fn shell_ip_parsing() {
    assert_eq!(parse_ip(b"10.0.2.15\0"), 0x0a00_020f);
    assert_eq!(parse_ip(b"255.255.255.255"), 0xffff_ffff);
    assert_eq!(parse_ip(b"1.2.3\0"), 0);
    assert_eq!(parse_ip(b"256.1.1.1\0"), 0);
    assert_eq!(parse_ip(b"a.b.c.d\0"), 0);
    assert_eq!(parse_ip(b"1.2.3.4x\0"), 0x0102_0304);
}

#[test]
fn shell_commands() {
    assert!(parse_command(b"help\0") == Command::Help);
    assert!(parse_command(b"help me\0") == Command::Unknown);
    assert!(parse_command(b"echo hi\0") == Command::Echo);
    assert!(parse_command(b"echo\0") == Command::Echo);
    assert!(parse_command(b"echoes\0") == Command::Unknown);
    assert!(parse_command(b"ls /dev\0") == Command::Ls);
    assert!(parse_command(b"rc prog.rs\0") == Command::Rc);
    assert!(parse_command(b"reboot\0") == Command::Reboot);
    assert!(parse_command(b"\0") == Command::Empty);
    assert_eq!(split_at_space(b"write f.txt some text\0", 6), Some((b"f.txt".to_vec(), b"some text".to_vec())));
    assert_eq!(split_at_space(b"tcp host\0", 4), None);
    assert_eq!(http_request(&b"/index".to_vec(), &b"example.org".to_vec()),
        b"GET /index HTTP/1.0\r\nHost: example.org\r\n\r\n".to_vec());
}

#[test]
fn shell_line_editing() {
    let mut e = LineEditor::new();
    assert!(e.feed(b'l') == LineEvent::Echo(b'l'));
    assert!(e.feed(b'x') == LineEvent::Echo(b'x'));
    assert!(e.feed(0x08) == LineEvent::Erase);
    assert!(e.feed(b's') == LineEvent::Echo(b's'));
    assert!(e.feed(b'\r') == LineEvent::Done);
    assert_eq!(e.line, b"ls".to_vec());
    let mut e2 = LineEditor::new();
    assert!(e2.feed(0x7f) == LineEvent::Ignore);
    for _ in 0..300 {
        e2.feed(b'a');
    }
    assert_eq!(e2.line.len(), 255);
}

// ---- system calls ----

#[test]
fn syscall_numbers() {
    assert!(syscall_x64(1) == Syscall::Write);
    assert!(syscall_x64(231) == Syscall::Exit);
    assert!(syscall_x64(39) == Syscall::Constant(1));
    assert!(syscall_x64(999) == Syscall::Unknown);
    assert!(syscall_i386(4) == Syscall::Write);
    assert!(syscall_i386(54) == Syscall::Constant(-1));
}

#[test]
fn syscall_directory_listing_and_stat() {
    let mut v = Vfs::new();
    v.mkdir_p(b"/etc\0").unwrap();
    let f = v.create_file(b"readme\0").unwrap();
    assert!(matches!(v.write(f, 0, b"12345"), WriteResult::Done(5)));
    let fd = v.vfs_open(b"/\0");
    let (n, bytes) = getdents64(&mut v, fd as u64, 4096);
    assert_eq!(n, 56);
    assert_eq!(bytes.len(), 56);
    assert_eq!(&bytes[19..22], b"etc");
    assert_eq!(bytes[18], 4);
    assert_eq!(bytes[16], 24);
    assert_eq!(&bytes[24 + 19..24 + 25], b"readme");
    assert_eq!(bytes[24 + 18], 8);
    // The offset moved past both entries.
    assert_eq!(getdents64(&mut v, fd as u64, 4096).0, 0);
    let fd2 = v.vfs_open(b"/\0");
    assert_eq!(getdents64(&mut v, fd2 as u64, 10).0, -22);
    assert_eq!(getdents64(&mut v, fd2 as u64, 0).0, -14);
    assert_eq!(getdents64(&mut v, 31, 100).0, -9);
    let fdf = v.vfs_open(b"/readme\0");
    assert_eq!(getdents64(&mut v, fdf as u64, 100).0, -20);
    let (r, st) = fstat(&v, fdf as u64);
    assert_eq!(r, 0);
    assert_eq!(st.len(), 144);
    assert_eq!(&st[48..56], &5u64.to_le_bytes());
    assert_eq!(&st[24..28], &0o100644u32.to_le_bytes());
    assert_eq!(fstat(&v, 30).0, -9);
}

#[test]
fn syscall_memory_plans() {
    assert_eq!(getcwd(16).unwrap(), vec![b'/', 0]);
    assert_eq!(getcwd(1).err(), Some(-34));
    assert_eq!(getcwd(0).err(), Some(-14));
    let p = brk_plan(0x50_0000, 0);
    assert_eq!(p.result, 0x50_0000);
    assert!(!p.moves);
    let p2 = brk_plan(0x50_0000, 0x60_0000);
    assert!(p2.moves);
    assert_eq!(p2.result, 0x60_0000);
    let p3 = brk_plan(0x1_0000_0800, 0x1_0000_2001);
    assert_eq!(p3.start, 0x1_0000_0000);
    assert_eq!(p3.end, 0x1_0000_3000);
    let mut next: u64 = 0x4000_0001;
    let m = mmap_plan(&mut next, 0, 5000, 0).ok().unwrap();
    assert_eq!(m.vaddr, 0x4000_1000);
    assert_eq!(m.pages, 2);
    assert_eq!(next, 0x4000_3000);
    let fixed = mmap_plan(&mut next, 0x1234_5678, 10, 0x10).ok().unwrap();
    assert_eq!(fixed.vaddr, 0x1234_5000);
    assert_eq!(next, 0x4000_3000);
    assert_eq!(mmap_plan(&mut next, 0, 0, 0).err(), Some(-22));
}

#[test]
fn syscall_random_bytes_follow_the_generator() {
    let a: u64 = 6364136223846793005;
    let c: u64 = 1442695040888963407;
    let mut s = 42u64.wrapping_mul(a).wrapping_add(c);
    let bytes = random_bytes(42, 5);
    for b in bytes {
        s = s.wrapping_mul(a).wrapping_add(c);
        assert_eq!(b, (s >> 33) as u8);
    }
}

// ---- editor ----

#[test]
fn editor_load_edit_save() {
    let mut b = EditBuffer::new();
    b.load(b"one\ntwo\nthree\n");
    assert_eq!(b.line_count(), 3);
    assert!(b.delete_line(2));
    assert!(!b.delete_line(5));
    assert!(b.insert_at(0, b"zero\0"));
    assert!(b.replace_line(3, b"THREE\0"));
    assert!(b.append(b"four"));
    assert_eq!(b.save_text(), b"zero\none\nTHREE\nfour\n".to_vec());
    let mut again = EditBuffer::new();
    again.load(&b.save_text());
    assert_eq!(again.lines, b.lines);
    let mut long = EditBuffer::new();
    long.load(&[b'x'; 100]);
    assert_eq!(long.lines[0].len(), 79);
    assert_eq!(insert_position(0, 3), 0);
    assert_eq!(insert_position(9, 3), 3);
    assert_eq!(insert_position(2, 3), 1);
}

#[test]
fn editor_commands() {
    assert!(parse_ed_command(b"q\0") == EdCommand::Quit);
    assert!(parse_ed_command(b"wq\0") == EdCommand::WriteQuit);
    assert!(parse_ed_command(b"p\0") == EdCommand::PrintAll);
    assert!(parse_ed_command(b"p 12\0") == EdCommand::Print(12));
    assert!(parse_ed_command(b"d 3\0") == EdCommand::Delete(3));
    assert!(parse_ed_command(b"i -1\0") == EdCommand::Insert(-1));
    assert!(parse_ed_command(b"e 2\0") == EdCommand::Edit(2));
    assert!(parse_ed_command(b"hello\0") == EdCommand::Append);
}

#[test]
fn disk_directory_reads_and_writes() {
    let mut f = Fat16::mount(fat_disk(64)).ok().unwrap();
    assert!(fat16_vfs_readdir(&f, 0).is_none());
    assert_eq!(fat16_vfs_write(&mut f, b"notes.txt\0", 0, 0, b"hello world"), (11, 11));
    let d = fat16_vfs_readdir(&f, 0).unwrap();
    assert_eq!(d.name, b"NOTES.TXT".to_vec());
    assert_eq!(d.size, 11);
    assert_eq!(d.inode, 0);
    assert!(fat16_vfs_readdir(&f, 1).is_none());
    assert_eq!(fat16_vfs_finddir(&f, b"NOTES.TXT\0").unwrap().size, 11);
    assert!(fat16_vfs_finddir(&f, b"notes.txt\0").is_none());
    assert_eq!(fat16_vfs_read(&f, b"notes.txt\0", 11, 6, 100).unwrap(), b"world".to_vec());
    assert_eq!(fat16_vfs_read(&f, b"notes.txt\0", 11, 11, 100).unwrap(), Vec::<u8>::new());
    assert_eq!(fat16_vfs_write(&mut f, b"notes.txt\0", 11, 13, b"!!"), (2, 15));
    assert_eq!(fat16_vfs_read(&f, b"notes.txt\0", 15, 0, 100).unwrap(), b"hello world\0\0!!".to_vec());
    let mut v = Vfs::new();
    assert_eq!(disk_dir_init(&mut v), 0);
    assert!(v.resolve_path(b"/disk\0").is_some());
}

#[test]
fn file_system_calls() {
    let mut v = Vfs::new();
    assert_eq!(sys_mkdir(&mut v, None), -14);
    assert_eq!(sys_mkdir(&mut v, Some(b"/a/b\0")), 0);
    assert!(v.resolve_path(b"/a/b\0").is_some());
    assert_eq!(sys_rename(&mut v, Some(b"/a/b\0"), None), -14);
    assert_eq!(sys_rename(&mut v, Some(b"/a/b\0"), Some(b"/c\0")), 0);
    assert!(v.resolve_path(b"/c\0").is_some());
    assert_eq!(sys_unlink(&mut v, Some(b"/c\0")), 0);
    assert_eq!(sys_unlink(&mut v, Some(b"/c\0")), -2);
    assert_eq!(sys_unlink(&mut v, None), -14);
    assert!(matches!(sys_write(&mut v, 1, b"hi"), WriteAction::Screen));
    assert!(matches!(sys_read(&mut v, 0, 1), ReadAction::ReadKey));
    assert!(matches!(sys_read(&mut v, 0, 0), ReadAction::Done(0, _)));
    let f = v.create_file(b"f\0").unwrap();
    assert!(matches!(v.write(f, 0, b"abc"), WriteResult::Done(3)));
    // Descriptors are handed out from 0; the calls treat 0 to 2 as the
    // keyboard and screen, so use the fourth.
    for expected in 0..3 {
        assert_eq!(v.vfs_open(b"/f\0"), expected);
    }
    let fd = v.vfs_open(b"/f\0");
    assert_eq!(fd, 3);
    match sys_read(&mut v, fd as u64, 10) {
        ReadAction::Done(c, b) => {
            assert_eq!(c, 3);
            assert_eq!(b, b"abc".to_vec());
        }
        _ => panic!(),
    }
    assert!(matches!(sys_write(&mut v, fd as u64, b"de"), WriteAction::Done(2)));
    assert!(matches!(sys_read(&mut v, 99, 10), ReadAction::Done(-1, _)));
    assert_eq!(sys_arch_prctl(0x1002, 0x1234), Ok((0xC000_0100, 0x1234)));
    assert_eq!(sys_arch_prctl(0x1001, 7), Ok((0xC000_0101, 7)));
    assert_eq!(sys_arch_prctl(5, 7), Err(-22));
}

fn drive_scan(vendor: u16, device: u16, cfg: &dyn Fn(u8, u8, u8, u8) -> u32) -> PciRequest {
    let (mut scan, mut req) = PciScan::find_device(vendor, device);
    loop {
        match req {
            PciRequest::Read { bus, device, function, offset } => req = scan.step(cfg(bus, device, function, offset)),
            other => return other,
        }
    }
}

#[test]
fn pci_scan_takes_the_first_match_in_bus_order() {
    // The same device at 2:5.0 and 1:7.3: the scan reports 1:7.3.
    let cfg = |bus: u8, dev: u8, func: u8, off: u8| -> u32 {
        let here = (bus, dev, func) == (2, 5, 0) || (bus, dev, func) == (1, 7, 3);
        match (here, off) {
            (true, 0) => 0x8139_10ec,
            (true, 0x10) => 0xfebf_1008,
            (true, 0x3c) => 0x0000_0109,
            _ => 0xffff_ffff,
        }
    };
    match drive_scan(0x10ec, 0x8139, &cfg) {
        PciRequest::Found(d) => {
            assert_eq!((d.bus, d.device, d.function), (1, 7, 3));
            assert_eq!(d.bar0, 0xfebf_1000);
            assert_eq!(d.irq_line, 9);
        }
        _ => panic!(),
    }
    let none = |_: u8, _: u8, _: u8, _: u8| -> u32 { 0xffff_ffff };
    assert!(matches!(drive_scan(0x10ec, 0x8139, &none), PciRequest::NotFound));
}

#[test]
fn leaving_a_scope_restores_lookups() {
    let mut t = lib::sym::new_table();
    assert_eq!(t.add(b"x\0", lib::sym::SYM_LOCAL, lib::sym::TYPE_INT, 0, -4, 0), 0);
    let outer = t.lookup(b"x\0");
    assert!(outer.is_some());
    assert_eq!(t.lookup(b"y\0"), None);
    t.enter_scope();
    t.add(b"x\0", lib::sym::SYM_LOCAL, lib::sym::TYPE_INT, 0, -8, 0);
    t.add(b"y\0", lib::sym::SYM_LOCAL, lib::sym::TYPE_INT, 0, -12, 0);
    assert_ne!(t.lookup(b"x\0"), outer);
    assert!(t.lookup(b"y\0").is_some());
    t.leave_scope();
    assert_eq!(t.lookup(b"x\0"), outer);
    assert_eq!(t.sym(outer.unwrap()).offset, -4);
    assert_eq!(t.lookup(b"y\0"), None);
}

#[test]
fn names_83_round_trip() {
    for n in [&b"hello.c\0"[..], b"a.b\0", b"kernel.bin\0", b"readme\0", b"x1234567.abc\0"] {
        let packed = name_to_83(n);
        let back = name_from_83(&packed);
        let want: Vec<u8> = n[..n.len() - 1].iter().map(|c| c.to_ascii_uppercase()).collect();
        assert_eq!(back, want);
    }
}
