use lib::arp::ArpTable;
use lib::dns::dns_encode_name;
use lib::heap::{Heap, HEAP_START};
use lib::ipv4::checksum;
use lib::net::{htonl, htons, ip_to_str, NET_IP_ADDR};
use lib::tcp::{tcp_checksum, Tcp, TCP_ACK, TCP_FIN, TCP_SYN};
use lib::pmm::Pmm;
use lib::rc::{derive_output_name, rc_compile, rc_compile_source};
use lib::shell::parse_ip;
use lib::string::{atoi, strcmp, strlen};
use lib::sym::new_table;
use lib::vfs::{ReadResult, Vfs, WriteResult};

fn mmap_one(base: u32, len: u32) -> Vec<u8> {
    let mut m = Vec::new();
    for v in [20u32, base, 0, len, 0, 1] {
        m.extend_from_slice(&v.to_le_bytes());
    }
    m
}

#[test]
fn pmm_alloc_then_free() {
    let mut p = Pmm::init(&mmap_one(0x10_0000, 0xf0_0000), 0x20_0000);
    let free0 = p.get_free_pages();
    assert_eq!(free0, (0x100_0000 - 0x20_0000) / 4096);
    let a = p.alloc_page();
    assert_eq!(a, 0x20_0000);
    assert_eq!(p.alloc_page(), 0x20_1000);
    p.free_page(a);
    assert_eq!(p.get_free_pages(), free0 - 1);
    assert_eq!(p.alloc_page(), a);
}

#[test]
fn heap_malloc_and_free() {
    let mut p = Pmm::init(&mmap_one(0x10_0000, 0xf0_0000), 0x20_0000);
    let (mut h, maps) = Heap::init(&mut p);
    assert_eq!(maps.len(), 256);
    assert_eq!(maps[0].0, HEAP_START);
    let free0 = h.get_free();
    let (a, grown) = h.kmalloc(&mut p, 100);
    assert!(grown.is_empty());
    assert_eq!(a, HEAP_START + 12);
    assert!(h.get_free() < free0);
    h.kfree(a);
    assert_eq!(h.get_free(), free0);
    assert_eq!(h.kmalloc(&mut p, 0).0, 0);
}

#[test]
fn byte_order_and_checksum() {
    assert_eq!(htons(0x1234), 0x3412);
    assert_eq!(htonl(0x0a00_020f), 0x0f02_000a);
    let mut hdr = vec![0x45u8, 0, 0, 0x1c, 0, 1, 0, 0, 64, 17, 0, 0, 10, 0, 2, 15, 10, 0, 2, 2];
    let c = checksum(&hdr);
    hdr[10] = c as u8;
    hdr[11] = (c >> 8) as u8;
    assert_eq!(checksum(&hdr), 0);
}

#[test]
fn ip_text_round_trip() {
    assert_eq!(ip_to_str(0x0a00_020f), b"10.0.2.15".to_vec());
    for ip in [0u32, 0xc0a8_0101, 0xffff_ffff, 0x0102_0304] {
        let mut t = ip_to_str(ip);
        t.push(0);
        assert_eq!(parse_ip(&t), ip);
    }
}

#[test]
fn arp_update_then_lookup() {
    let mut t = ArpTable::init();
    assert_eq!(t.lookup(0x0a00_0202), None);
    t.update(0x0a00_0202, [1, 2, 3, 4, 5, 6]);
    t.update(0x0a00_0203, [9, 9, 9, 9, 9, 9]);
    t.update(0x0a00_0202, [6, 5, 4, 3, 2, 1]);
    assert_eq!(t.lookup(0x0a00_0202), Some([6, 5, 4, 3, 2, 1]));
    assert_eq!(t.lookup(0x0a00_0203), Some([9, 9, 9, 9, 9, 9]));
}

#[test]
fn dns_names() {
    assert_eq!(dns_encode_name(b"google.com\0").unwrap(), b"\x06google\x03com\x00".to_vec());
}

#[test]
fn strings() {
    assert_eq!(strlen(b"abc\0def"), 3);
    assert_eq!(strcmp(b"abc\0", b"abd\0"), -1);
    assert_eq!(strcmp(b"abc\0", b"abc\0"), 0);
    assert_eq!(atoi(b"  -42x\0"), -42);
}

const FUNCTIONS_RS: &str = "fn square(x: i32) -> i32 {\n    return x * x;\n}\n\nfn add(a: i32, b: i32) -> i32 {\n    return a + b;\n}\n\nfn main() -> i32 {\n    if square(7) != 49 {\n        return 1;\n    }\n    if add(30, 12) != 42 {\n        return 1;\n    }\n    if square(add(3, 4)) != 49 {\n        return 1;\n    }\n    puts(\"functions: PASS\\n\");\n    return 0;\n}\n";

#[test]
fn compiler_builds_a_sample_program() {
    let mut syms = new_table();
    assert_eq!(syms.add_builtin(b"puts\0", 0x10_1000), 0);
    let out = rc_compile_source(FUNCTIONS_RS.as_bytes().to_vec(), syms, 0x00a0_0000);
    assert_eq!(out.status, 0);
    assert!(!out.code.is_empty());
    let bad = rc_compile_source(b"fn main( {".to_vec(), new_table(), 0x00a0_0000);
    assert_eq!(bad.status, -1);
    assert!(bad.code.is_empty());
    assert!(!bad.diag.is_empty());
}

#[test]
fn compiler_driver_writes_the_binary() {
    let mut v = Vfs::new();
    let f = v.create_file(b"prog.rs\0").unwrap();
    assert!(matches!(v.write(f, 0, FUNCTIONS_RS.as_bytes()), WriteResult::Done(_)));
    let mut syms = new_table();
    syms.add_builtin(b"puts\0", 0x10_1000);
    let out = rc_compile(&mut v, b"prog.rs\0", None, syms, 0x00a0_0000);
    assert_eq!(out.status, 0);
    let bin = v.resolve_path(b"/prog.bin\0").unwrap();
    match v.read(bin, 0, 1 << 20) {
        ReadResult::Data(b) => assert_eq!(b, out.code),
        _ => panic!(),
    }
    let missing = rc_compile(&mut v, b"nope.rs\0", None, new_table(), 0x00a0_0000);
    assert_eq!(missing.status, -1);
    assert_eq!(derive_output_name(b"hello.rs\0", 64), b"hello.bin".to_vec());
    assert_eq!(derive_output_name(b"noext\0", 64), b"noext.bin".to_vec());
}

#[test]
fn heap_kfree_undoes_kmalloc() {
    let mut p = Pmm::init(&mmap_one(0x10_0000, 0xf0_0000), 0x20_0000);
    let (mut h, _) = Heap::init(&mut p);
    let (keep, _) = h.kmalloc(&mut p, 40);
    assert_ne!(keep, 0);
    let before: Vec<(u32, u32, bool)> = h.blocks.iter().map(|b| (b.addr, b.size, b.is_free)).collect();
    let (a, grown) = h.kmalloc(&mut p, 64);
    assert!(grown.is_empty());
    assert_eq!(a, HEAP_START + 12 + 40 + 12);
    assert_eq!(h.blocks.len(), before.len() + 1);
    h.kfree(a);
    let after: Vec<(u32, u32, bool)> = h.blocks.iter().map(|b| (b.addr, b.size, b.is_free)).collect();
    assert_eq!(after, before);
}

#[test]
fn compiled_program_starts_and_ends_with_the_startup_jump() {
    // One global initializer, then main at offset 5.
    let src = b"static mut G: i32 = 7;\nfn main() -> i32 { return 0; }\n".to_vec();
    let out = rc_compile_source(src, new_table(), 0x00a0_0000);
    assert_eq!(out.status, 0);
    let c = &out.code;
    let n = c.len();
    assert_eq!(c[0], 0xE9);
    // The tail: mov eax, 7; mov [G], eax; call main; ret.
    let startup = n - 17;
    assert_eq!(c[startup], 0xB8);
    assert_eq!(&c[startup + 1..startup + 5], &7u32.to_le_bytes());
    assert_eq!(&c[startup + 5..startup + 7], &[0x89, 0x05]);
    assert_eq!(c[n - 6], 0xE8);
    assert_eq!(c[n - 1], 0xC3);
    let call_rel = i32::from_le_bytes([c[n - 5], c[n - 4], c[n - 3], c[n - 2]]);
    assert_eq!(n as i32 - 1 + call_rel, 5);
    let jmp_rel = i32::from_le_bytes([c[1], c[2], c[3], c[4]]);
    assert_eq!(5 + jmp_rel, startup as i32);
}

fn tcp_in(src_ip: u32, sport: u16, dport: u16, seq: u32, ack: u32, flags: u8, payload: &[u8]) -> Vec<u8> {
    let mut d = Vec::new();
    d.extend_from_slice(&sport.to_be_bytes());
    d.extend_from_slice(&dport.to_be_bytes());
    d.extend_from_slice(&seq.to_be_bytes());
    d.extend_from_slice(&ack.to_be_bytes());
    d.push(0x50);
    d.push(flags);
    d.extend_from_slice(&4096u16.to_be_bytes());
    d.extend_from_slice(&[0, 0, 0, 0]);
    d.extend_from_slice(payload);
    let c = tcp_checksum(src_ip, NET_IP_ADDR, &d);
    d[16] = (c & 0xff) as u8;
    d[17] = (c >> 8) as u8;
    d
}

#[test]
fn tcp_handshake_data_and_close() {
    let remote = 0x0a00_0202;
    let mut t = Tcp::init();
    let (id, syn) = t.connect(remote, 80, 7);
    assert_eq!(id, 0);
    let syn = syn.unwrap();
    assert_eq!(syn.flags, TCP_SYN);
    assert_eq!(syn.dst_port, 80);
    assert_eq!(syn.seq, 7u32.wrapping_mul(12345).wrapping_add(1));
    assert!(!t.is_connected(id));
    // A SYN-ACK that does not acknowledge our SYN changes nothing.
    let wrong = tcp_in(remote, 80, syn.src_port, 5000, syn.seq, TCP_SYN | TCP_ACK, b"");
    assert!(t.rx(remote, &wrong).is_empty());
    assert!(!t.is_connected(id));
    // The right one establishes the connection and is acknowledged.
    let reply = tcp_in(remote, 80, syn.src_port, 5000, syn.seq.wrapping_add(1), TCP_SYN | TCP_ACK, b"");
    let out = t.rx(remote, &reply);
    assert_eq!(out.len(), 1);
    assert_eq!(out[0].flags, TCP_ACK);
    assert_eq!(out[0].ack, 5001);
    assert!(t.is_connected(id));
    // Data is acknowledged and can be read.
    let data = tcp_in(remote, 80, syn.src_port, 5001, out[0].seq, TCP_ACK, b"hello");
    let out2 = t.rx(remote, &data);
    assert_eq!(out2.len(), 1);
    assert_eq!(out2[0].ack, 5006);
    assert!(t.recv_ready(id));
    assert_eq!(t.recv(id, 100), b"hello".to_vec());
    // A corrupted segment is ignored.
    let mut bad = tcp_in(remote, 80, syn.src_port, 5006, out[0].seq, TCP_ACK, b"x");
    bad[20] ^= 0xff;
    assert!(t.rx(remote, &bad).is_empty());
    // The remote end closes.
    let fin = tcp_in(remote, 80, syn.src_port, 5006, out[0].seq, TCP_ACK | TCP_FIN, b"");
    let out3 = t.rx(remote, &fin);
    assert_eq!(out3.len(), 1);
    assert_eq!(out3[0].ack, 5007);
}

#[test]
fn program_without_main_is_rejected() {
    let out = rc_compile_source(Vec::new(), new_table(), 0x00a0_0000);
    assert_eq!(out.status, -1);
    assert!(out.code.is_empty());
    let only_helper = rc_compile_source(b"fn helper() -> i32 { return 1; }\n".to_vec(), new_table(), 0x00a0_0000);
    assert_eq!(only_helper.status, -1);
}

fn contains(hay: &[u8], needle: &[u8]) -> bool {
    hay.windows(needle.len()).any(|w| w == needle)
}

#[test]
fn binary_operators_emit_their_instructions() {
    let sub = rc_compile_source(
        b"fn f(a: i32, b: i32) -> i32 { return a - b; }\nfn main() -> i32 { return f(5, 3); }\n".to_vec(),
        new_table(),
        0x00a0_0000,
    );
    assert_eq!(sub.status, 0);
    // mov ecx, eax; pop eax; sub eax, ecx
    assert!(contains(&sub.code, &[0x89, 0xC1, 0x58, 0x29, 0xC8]));
    assert!(!contains(&sub.code, &[0x89, 0xC1, 0x58, 0x01, 0xC8]));
    let or = rc_compile_source(
        b"fn f(a: i32, b: i32) -> i32 { return a || b; }\nfn main() -> i32 { return f(0, 3); }\n".to_vec(),
        new_table(),
        0x00a0_0000,
    );
    assert_eq!(or.status, 0);
    // cmp eax, 0; setne al; movzx eax, al; jmp +5; mov eax, 1
    let tail = [
        0x3D, 0, 0, 0, 0, 0x0F, 0x95, 0xC0, 0x0F, 0xB6, 0xC0, 0xE9, 5, 0, 0, 0, 0xB8, 1, 0, 0, 0,
    ];
    assert!(contains(&or.code, &tail));
}

#[test]
fn compound_assignment_stores_back() {
    let out = rc_compile_source(
        b"fn main() -> i32 { let mut x: i32 = 1; x += 2; return x; }\n".to_vec(),
        new_table(),
        0x00a0_0000,
    );
    assert_eq!(out.status, 0);
    // mov ecx, eax; pop eax; add eax, ecx; mov [ebp+disp32], eax
    assert!(contains(&out.code, &[0x89, 0xC1, 0x58, 0x01, 0xC8, 0x89, 0x85]));
}

const RETURNS_RS: &str = "fn helper() { return 3; }\nfn main() { return 0; return 7; }\n";

#[test]
fn functions_of_return_statements_compile_to_their_code() {
    let out = rc_compile_source(RETURNS_RS.as_bytes().to_vec(), new_table(), 0x00a0_0000);
    assert_eq!(out.status, 0);
    // entry jump, helper (18 + 9), main (18 + 2 * 9), call main; ret
    assert_eq!(out.code.len(), 5 + 27 + 36 + 6);
    let helper: Vec<u8> = vec![
        0x55, 0x89, 0xE5, 0x81, 0xEC, 0, 0, 0, 0, // prologue, no locals
        0xB8, 3, 0, 0, 0, 0x89, 0xEC, 0x5D, 0xC3, // return 3;
        0xB8, 0, 0, 0, 0, 0x89, 0xEC, 0x5D, 0xC3, // fall-through return 0
    ];
    assert_eq!(&out.code[5..32], &helper[..]);
    assert_eq!(&out.code[32 + 9..32 + 14], &[0xB8, 0, 0, 0, 0]);
    assert_eq!(&out.code[32 + 18..32 + 23], &[0xB8, 7, 0, 0, 0]);
}

#[test]
fn driver_compiles_a_function_file() {
    let mut v = Vfs::new();
    let f = v.create_file(b"ret.rs\0").unwrap();
    assert!(matches!(v.write(f, 0, RETURNS_RS.as_bytes()), WriteResult::Done(_)));
    let out = rc_compile(&mut v, b"ret.rs\0", Some(b"ret.out\0"), new_table(), 0x00a0_0000);
    assert_eq!(out.status, 0);
    let bin = v.resolve_path(b"/ret.out\0").unwrap();
    match v.read(bin, 0, 1 << 20) {
        ReadResult::Data(b) => assert_eq!(b, out.code),
        _ => panic!(),
    }
}

#[test]
fn assignment_of_a_literal_loads_it_then_stores() {
    let out = rc_compile_source(
        b"fn main() -> i32 { let mut x: i32 = 0; x = 5; return x; }\n".to_vec(),
        new_table(),
        0x00a0_0000,
    );
    assert_eq!(out.status, 0);
    // mov eax, 5; mov [ebp+disp32], eax
    assert!(contains(&out.code, &[0xB8, 5, 0, 0, 0, 0x89, 0x85]));
}

#[test]
fn c_source_is_read_with_its_includes_expanded() {
    let mut v = Vfs::new();
    let h = v.create_file(b"a.h\0").unwrap();
    assert!(matches!(v.write(h, 0, b"int x;\n"), WriteResult::Done(_)));
    let c = v.create_file(b"main.c\0").unwrap();
    assert!(matches!(v.write(c, 0, b"#include \"a.h\"\n#include \"a.h\"\nint main;\n"), WriteResult::Done(_)));
    assert_eq!(lib::cc::cc_read_source(&v, b"main.c\0"), Some(b"int x;\nint main;\n".to_vec()));
    assert_eq!(lib::cc::cc_read_source(&v, b"none.c\0"), None);
}

#[test]
fn a_variable_alone_is_loaded() {
    let out = rc_compile_source(
        b"fn main() -> i32 { let x: i32 = 4; return x; }\n".to_vec(),
        new_table(),
        0x00a0_0000,
    );
    assert_eq!(out.status, 0);
    // mov eax, [ebp+disp32] followed directly by the epilogue of `return`
    let i = out.code.windows(2).position(|w| w == [0x8B, 0x85]).unwrap();
    assert_eq!(&out.code[i + 6..i + 10], &[0x89, 0xEC, 0x5D, 0xC3]);
}

#[test]
fn operator_with_a_literal_operand_is_exact() {
    let out = rc_compile_source(
        b"fn f(a: i32) -> i32 { return a - 4; }\nfn main() -> i32 { return f(9); }\n".to_vec(),
        new_table(),
        0x00a0_0000,
    );
    assert_eq!(out.status, 0);
    // push eax; mov eax, 4; mov ecx, eax; pop eax; sub eax, ecx
    assert!(contains(&out.code, &[0x50, 0xB8, 4, 0, 0, 0, 0x89, 0xC1, 0x58, 0x29, 0xC8]));
}

#[test]
fn double_free_is_ignored() {
    let mut p = Pmm::init(&mmap_one(0x10_0000, 0xf0_0000), 0x20_0000);
    let (mut h, _) = Heap::init(&mut p);
    let (a, _) = h.kmalloc(&mut p, 40);
    let (_b, _) = h.kmalloc(&mut p, 40);
    h.kfree(a);
    let once: Vec<(u32, u32, bool)> = h.blocks.iter().map(|b| (b.addr, b.size, b.is_free)).collect();
    let free_once = h.get_free();
    h.kfree(a);
    let twice: Vec<(u32, u32, bool)> = h.blocks.iter().map(|b| (b.addr, b.size, b.is_free)).collect();
    assert_eq!(once, twice);
    assert_eq!(h.get_free(), free_once);
    h.kfree(0);
    assert_eq!(h.get_free(), free_once);
}

#[test]
fn constant_expressions_compile_by_precedence() {
    let src = b"fn main() { return 1 + 2 * 3; return -(4 - 1) || 0 && 5; }\n".to_vec();
    let out = rc_compile_source(src, new_table(), 0x00a0_0000);
    assert_eq!(out.status, 0);
    // entry jump, main (18 + 32 + 86), call main; ret
    assert_eq!(out.code.len(), 5 + 18 + 32 + 86 + 6);
    let first: Vec<u8> = vec![
        0xB8, 1, 0, 0, 0, 0x50, // 1, pushed
        0xB8, 2, 0, 0, 0, 0x50, 0xB8, 3, 0, 0, 0, // 2, pushed, 3
        0x89, 0xC1, 0x58, 0x0F, 0xAF, 0xC1, // imul: 2 * 3
        0x89, 0xC1, 0x58, 0x01, 0xC8, // add: 1 + 6
        0x89, 0xEC, 0x5D, 0xC3, // epilogue
    ];
    assert_eq!(&out.code[14..46], &first[..]);
    let mut second: Vec<u8> = vec![
        0xB8, 4, 0, 0, 0, 0x50, 0xB8, 1, 0, 0, 0, 0x89, 0xC1, 0x58, 0x29, 0xC8, // 4 - 1
        0xF7, 0xD8, // neg
        0x3D, 0, 0, 0, 0, 0x0F, 0x85, 48, 0, 0, 0, // cmp eax, 0; jne over the right operand
        0xB8, 0, 0, 0, 0, // 0
        0x3D, 0, 0, 0, 0, 0x0F, 0x84, 16, 0, 0, 0, // cmp eax, 0; je past `5` and its test
        0xB8, 5, 0, 0, 0, // 5
    ];
    let to_bool = [0x3D, 0, 0, 0, 0, 0x0F, 0x95, 0xC0, 0x0F, 0xB6, 0xC0];
    second.extend_from_slice(&to_bool); // && result
    second.extend_from_slice(&to_bool); // || right operand's truth
    second.extend_from_slice(&[0xE9, 5, 0, 0, 0, 0xB8, 1, 0, 0, 0]); // jmp over mov eax, 1
    second.extend_from_slice(&[0x89, 0xEC, 0x5D, 0xC3]);
    assert_eq!(second.len(), 86);
    assert_eq!(&out.code[46..132], &second[..]);
}

#[test]
fn allocations_in_use_do_not_overlap() {
    let mut p = Pmm::init(&mmap_one(0x10_0000, 0xf0_0000), 0x20_0000);
    let (mut h, _) = Heap::init(&mut p);
    let (a, _) = h.kmalloc(&mut p, 10);
    let (b, _) = h.kmalloc(&mut p, 7);
    let (c, _) = h.kmalloc(&mut p, 33);
    assert!(a != 0 && b != 0 && c != 0);
    // rounded sizes 12, 8 and 36 bytes
    let spans = [(a, 12u32), (b, 8u32), (c, 36u32)];
    for i in 0..3 {
        for j in 0..3 {
            if i != j {
                let (x, xs) = spans[i];
                let (y, ys) = spans[j];
                assert!(x + xs <= y || y + ys <= x);
            }
        }
        assert!(spans[i].0 >= HEAP_START + 12);
    }
    let before = h.get_free();
    h.kfree(b);
    assert!(h.get_free() >= before + 8);
    // the other two stay in use, where they were
    for r in [a, c] {
        assert!(h.blocks.iter().any(|blk| blk.addr + 12 == r && !blk.is_free));
    }
}

#[test]
fn statics_get_addresses_and_startup_stores() {
    let src = b"static mut X: i32 = 5;\nstatic Y: u8;\nstatic Z: i32 = -3;\nfn main() { return 2; }\n".to_vec();
    let out = rc_compile_source(src, new_table(), 0x00a0_0000);
    assert_eq!(out.status, 0);
    // entry jump, main (18 + 9), two stores of 11 bytes, call main; ret
    assert_eq!(out.code.len(), 5 + 27 + 22 + 6);
    let main: Vec<u8> = vec![
        0x55, 0x89, 0xE5, 0x81, 0xEC, 0, 0, 0, 0, // prologue
        0xB8, 2, 0, 0, 0, 0x89, 0xEC, 0x5D, 0xC3, // return 2;
        0xB8, 0, 0, 0, 0, 0x89, 0xEC, 0x5D, 0xC3, // fall-through return 0
    ];
    assert_eq!(&out.code[5..32], &main[..]);
    // globals after the 64 KiB code area, 4 bytes each: X, Y, Z
    let x = 0x00a1_0000u32.to_le_bytes();
    let z = 0x00a1_0008u32.to_le_bytes();
    let stores: Vec<u8> = vec![
        0xB8, 5, 0, 0, 0, 0x89, 0x05, x[0], x[1], x[2], x[3], // X = 5
        0xB8, 0xFD, 0xFF, 0xFF, 0xFF, 0x89, 0x05, z[0], z[1], z[2], z[3], // Z = -3
    ];
    assert_eq!(&out.code[32..54], &stores[..]);
    // call main (at 5), ret; the entry jump lands on the stores
    assert_eq!(&out.code[54..60], &[0xE8, 0xCA, 0xFF, 0xFF, 0xFF, 0xC3]);
    assert_eq!(&out.code[0..5], &[0xE9, 27, 0, 0, 0]);
}

#[test]
fn casts_to_primitive_types_emit_no_code() {
    let cast = rc_compile_source(b"fn main() { return (3 + 4) as u8 as i32; }\n".to_vec(), new_table(), 0x00a0_0000);
    let plain = rc_compile_source(b"fn main() { return 3 + 4; }\n".to_vec(), new_table(), 0x00a0_0000);
    assert_eq!(cast.status, 0);
    assert_eq!(plain.status, 0);
    assert_eq!(cast.code, plain.code);
    // mov eax, 3; push eax; mov eax, 4; mov ecx, eax; pop eax; add eax, ecx
    assert_eq!(&cast.code[14..30], &[0xB8, 3, 0, 0, 0, 0x50, 0xB8, 4, 0, 0, 0, 0x89, 0xC1, 0x58, 0x01, 0xC8]);
}
