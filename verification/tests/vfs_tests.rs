use lib::initrd::parse_initrd;
use lib::vfs::{FdRead, NodeKind, ReadResult, Vfs, WriteResult};

fn initrd_image(files: &[(&str, &[u8])]) -> Vec<u8> {
    let mut img = Vec::new();
    img.extend_from_slice(&(files.len() as u32).to_le_bytes());
    for (name, data) in files {
        let mut n = [0u8; 64];
        n[..name.len()].copy_from_slice(name.as_bytes());
        img.extend_from_slice(&n);
        img.extend_from_slice(&(data.len() as u32).to_le_bytes());
        img.extend_from_slice(data);
    }
    img
}

fn read_all(v: &Vfs, node: usize) -> Vec<u8> {
    match v.read(node, 0, 1 << 20) {
        ReadResult::Data(b) => b,
        _ => panic!("not readable"),
    }
}

#[test]
fn fresh_vfs_has_root_only() {
    let v = Vfs::new();
    assert_eq!(v.nodes.len(), 1);
    assert_eq!(v.nodes[0].name, b"/".to_vec());
    assert_eq!(v.resolve_path(b"/\0"), Some(0));
    assert_eq!(v.resolve_path(b"\0"), Some(0));
    assert_eq!(v.readdir(0, 0), None);
}

#[test]
fn mkdir_p_then_resolve() {
    let mut v = Vfs::new();
    let d = v.mkdir_p(b"/a/b/c\0").unwrap();
    assert_eq!(v.resolve_path(b"/a/b/c\0"), Some(d));
    assert_eq!(v.resolve_path(b"a//b/c/\0"), Some(d));
    // Existing directories are reused.
    assert_eq!(v.mkdir_p(b"/a/b/c\0"), Some(d));
    assert_eq!(v.nodes.len(), 4);
    assert_eq!(v.resolve_path(b"/a/x\0"), None);
}

#[test]
fn mkdir_refuses_file_name() {
    let mut v = Vfs::new();
    let f = v.create_file(b"notes\0").unwrap();
    assert!(v.nodes[f].kind == NodeKind::RamFile);
    assert_eq!(v.mkdir(0, b"notes\0"), None);
    // A file cannot hold a directory.
    assert_eq!(v.mkdir(f, b"sub\0"), None);
    assert_eq!(v.add_child(f, 0), -1);
}

#[test]
fn directory_holds_at_most_128_children() {
    let mut v = Vfs::new();
    for i in 0..128 {
        let name = format!("d{}\0", i);
        assert!(v.mkdir(0, name.as_bytes()).is_some());
    }
    assert_eq!(v.mkdir(0, b"extra\0"), None);
    assert_eq!(v.create_file(b"file\0"), None);
}

#[test]
fn ram_file_write_then_read() {
    let mut v = Vfs::new();
    let f = v.create_file(b"f.txt\0").unwrap();
    match v.write(f, 0, b"hello") {
        WriteResult::Done(n) => assert_eq!(n, 5),
        _ => panic!(),
    }
    match v.write(f, 8, b"xy") {
        WriteResult::Done(n) => assert_eq!(n, 2),
        _ => panic!(),
    }
    assert_eq!(read_all(&v, f), b"hello\0\0\0xy".to_vec());
    assert_eq!(v.nodes[f].size, 10);
    match v.read(f, 3, 4) {
        ReadResult::Data(b) => assert_eq!(b, b"lo\0\0".to_vec()),
        _ => panic!(),
    }
    match v.read(f, 20, 4) {
        ReadResult::Data(b) => assert!(b.is_empty()),
        _ => panic!(),
    }
    // Writing past the u32 range fails.
    match v.write(f, u32::MAX, b"ab") {
        WriteResult::Done(n) => assert_eq!(n, -1),
        _ => panic!(),
    }
}

#[test]
fn directory_cannot_be_read_or_written() {
    let mut v = Vfs::new();
    assert!(matches!(v.read(0, 0, 10), ReadResult::Fail));
    assert!(matches!(v.write(0, 0, b"x"), WriteResult::Done(-1)));
    assert!(matches!(v.read(99, 0, 10), ReadResult::Fail));
}

#[test]
fn boot_tree_mounts_initrd_and_dev() {
    let img = initrd_image(&[("hello.txt", b"Hi there"), ("prog.rs", b"fn main() {}")]);
    let t = parse_initrd(&img).unwrap();
    assert_eq!(t.get_count(), 2);
    assert_eq!(t.find(b"prog.rs\0").unwrap().data, b"fn main() {}".to_vec());
    assert!(t.find(b"missing\0").is_none());
    let mut v = Vfs::init(&t);
    let h = v.resolve_path(b"/hello.txt\0").unwrap();
    assert_eq!(read_all(&v, h), b"Hi there".to_vec());
    assert!(matches!(v.write(h, 0, b"x"), WriteResult::Done(-1)));
    let null = v.resolve_path(b"/dev/null\0").unwrap();
    let zero = v.resolve_path(b"/dev/zero\0").unwrap();
    let console = v.resolve_path(b"/dev/console\0").unwrap();
    assert_eq!(read_all(&v, null), Vec::<u8>::new());
    match v.read(zero, 0, 3) {
        ReadResult::Data(b) => assert_eq!(b, vec![0, 0, 0]),
        _ => panic!(),
    }
    assert!(matches!(v.read(console, 0, 3), ReadResult::Console));
    assert_eq!(v.readdir(0, 0), Some(h));
    assert_eq!(v.nodes[v.readdir(0, 2).unwrap()].name, b"dev".to_vec());
}

#[test]
fn truncated_initrd_is_refused() {
    let mut img = initrd_image(&[("a", b"abcdef")]);
    img.truncate(img.len() - 1);
    assert!(parse_initrd(&img).is_none());
    assert!(parse_initrd(&[1, 0]).is_none());
    // A count over 64 is cut to 64.
    let mut big = Vec::new();
    big.extend_from_slice(&100u32.to_le_bytes());
    for _ in 0..64 {
        big.extend_from_slice(&[b'x'; 64]);
        big.extend_from_slice(&0u32.to_le_bytes());
    }
    let t = parse_initrd(&big).unwrap();
    assert_eq!(t.get_count(), 64);
    // Names keep 63 bytes.
    assert_eq!(t.files[0].name.len(), 63);
}

#[test]
fn descriptors_read_write_seek_close() {
    let mut v = Vfs::new();
    let f = v.create_file(b"log\0").unwrap();
    let fd = v.vfs_open(b"/log\0");
    assert_eq!(fd, 0);
    assert!(matches!(v.vfs_fd_write(fd, b"abcdef"), WriteResult::Done(6)));
    assert_eq!(v.fds[0].offset, 6);
    assert_eq!(v.vfs_lseek(fd, 2, 0), 2);
    match v.vfs_fd_read(fd, 3) {
        FdRead::Done(n, b) => {
            assert_eq!(n, 3);
            assert_eq!(b, b"cde".to_vec());
        }
        _ => panic!(),
    }
    assert_eq!(v.vfs_lseek(fd, -1, 1), 4);
    assert_eq!(v.vfs_lseek(fd, -2, 2), 4);
    assert_eq!(v.vfs_lseek(fd, -10, 2), -1);
    assert_eq!(v.vfs_lseek(fd, 0, 7), -1);
    assert_eq!(v.nodes[f].size, 6);
    v.vfs_close(fd);
    assert!(matches!(v.vfs_fd_read(fd, 3), FdRead::Done(-1, _)));
    assert_eq!(v.vfs_open(b"/nope\0"), -1);
}

#[test]
fn descriptor_table_fills_up() {
    let mut v = Vfs::new();
    for i in 0..32 {
        assert_eq!(v.vfs_open(b"/\0"), i);
    }
    assert_eq!(v.vfs_open(b"/\0"), -1);
    v.vfs_close(5);
    assert_eq!(v.vfs_open(b"/\0"), 5);
}

#[test]
fn unlink_and_unlink_path() {
    let mut v = Vfs::new();
    v.mkdir_p(b"/docs\0").unwrap();
    let docs = v.resolve_path(b"/docs\0").unwrap();
    v.create_file(b"top\0").unwrap();
    assert_eq!(v.unlink_path(b"/top\0"), 0);
    assert_eq!(v.resolve_path(b"/top\0"), None);
    assert_eq!(v.unlink_path(b"/top\0"), -1);
    assert!(v.mkdir(docs, b"inner\0").is_some());
    assert_eq!(v.unlink_path(b"docs/inner\0"), 0);
    assert_eq!(v.resolve_path(b"/docs/inner\0"), None);
    assert_eq!(v.unlink_path(b"\0"), -1);
    assert_eq!(v.unlink_path(b"/docs/\0"), -1);
    assert_eq!(v.unlink(docs, b"ghost\0"), -1);
}

#[test]
fn rename_moves_and_renames() {
    let mut v = Vfs::new();
    let d = v.mkdir_p(b"/dir\0").unwrap();
    let f = v.create_file(b"a.txt\0").unwrap();
    assert_eq!(v.rename(b"/a.txt\0", b"/dir/b.txt\0"), 0);
    assert_eq!(v.resolve_path(b"/dir/b.txt\0"), Some(f));
    assert_eq!(v.resolve_path(b"/a.txt\0"), None);
    assert_eq!(v.nodes[f].parent, Some(d));
    assert_eq!(v.rename(b"/missing\0", b"/x\0"), -2);
    assert_eq!(v.rename(b"/\0", b"/x\0"), -1);
    assert_eq!(v.rename(b"/dir/b.txt\0", b"/nodir/x\0"), -2);
    assert_eq!(v.rename(b"/dir/b.txt\0", b"/dir/\0"), -22);
}

#[test]
fn created_file_is_found() {
    let mut v = Vfs::new();
    assert_eq!(v.finddir_root(b"fresh.txt\0"), None);
    let n = v.create_file(b"fresh.txt\0").unwrap();
    assert_eq!(v.finddir_root(b"fresh.txt\0"), Some(n));
    assert_eq!(v.create_file(b"fresh.txt\0"), Some(n));
    assert_eq!(v.unlink(v.root, b"fresh.txt\0"), 0);
    assert_eq!(v.finddir_root(b"fresh.txt\0"), None);
}

#[test]
fn renamed_node_is_found_under_new_name() {
    let mut v = Vfs::new();
    let d = v.mkdir_p(b"/dst\0").unwrap();
    let f = v.create_file(b"a.txt\0").unwrap();
    assert_eq!(v.rename(b"/a.txt\0", b"/dst/b.txt\0"), 0);
    assert_eq!(v.finddir(d, b"b.txt\0"), Some(f));
    assert_eq!(v.finddir_root(b"a.txt\0"), None);
    assert_eq!(v.resolve_path(b"/dst/b.txt\0"), Some(f));
}
