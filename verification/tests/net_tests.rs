use lib::emit::{code, mov_reg_imm, new_emitter, patch_dword, size, REG_EAX};
use lib::icmp::{got_reply, rx as icmp_rx, send_echo_request, IcmpState};
use lib::ipv4::{rx as ipv4_rx, Ipv4};
use lib::lex::{init as lex_init, TOK_EOF, TOK_FN, TOK_IDENT, TOK_LPAREN, TOK_NUM};
use lib::multiboot::{read_le32, read_mmap_entry};
use lib::net::NET_IP_ADDR;
use lib::udp::{send as udp_send, UdpTable};

#[test]
fn icmp_echo_round_trip() {
    let mut ip_a = Ipv4::new();
    let req = send_echo_request(&mut ip_a, NET_IP_ADDR, 0x1234, 7).unwrap();
    let rx_req = ipv4_rx(&req).unwrap();
    assert_eq!(rx_req.protocol, 1);
    let payload = &req[rx_req.payload_start..rx_req.payload_start + rx_req.payload_len];
    let mut ip_b = Ipv4::new();
    let mut st_b = IcmpState::new();
    let reply = icmp_rx(&mut ip_b, &mut st_b, rx_req.src_ip, payload).unwrap();
    assert_eq!(st_b.reply_received, 0);
    let rx_rep = ipv4_rx(&reply).unwrap();
    let p2 = &reply[rx_rep.payload_start..rx_rep.payload_start + rx_rep.payload_len];
    assert_eq!(p2[0], 0);
    let mut st_a = IcmpState::new();
    assert!(icmp_rx(&mut ip_a, &mut st_a, rx_rep.src_ip, p2).is_none());
    let (mut id, mut seq, mut src) = (0u16, 0u16, 0u32);
    assert_eq!(got_reply(&mut st_a, &mut id, &mut seq, &mut src), 1);
    assert_eq!((id, seq, src), (0x1234, 7, NET_IP_ADDR));
    assert_eq!(got_reply(&mut st_a, &mut id, &mut seq, &mut src), 0);
    // A damaged request is not answered.
    let mut bad = payload.to_vec();
    bad[4] ^= 1;
    assert!(icmp_rx(&mut ip_b, &mut st_b, rx_req.src_ip, &bad).is_none());
}

#[test]
fn udp_delivers_to_bound_port() {
    let mut t: UdpTable<u8> = UdpTable::new();
    assert_eq!(t.bind(53, 9), 1);
    assert_eq!(t.bind(53, 10), 1);
    let mut ip = Ipv4::new();
    let pkt = udp_send(&mut ip, NET_IP_ADDR, 1000, 53, b"hi").unwrap();
    let r = ipv4_rx(&pkt).unwrap();
    assert_eq!(r.protocol, 17);
    let msg = &pkt[r.payload_start..r.payload_start + r.payload_len];
    let d = t.rx(r.src_ip, msg).unwrap();
    assert_eq!(d.handler, 10);
    assert_eq!(d.src_port, 1000);
    assert_eq!(&msg[d.data_start..d.data_start + d.data_len as usize], b"hi");
    let pkt2 = udp_send(&mut ip, NET_IP_ADDR, 1000, 54, b"x").unwrap();
    let r2 = ipv4_rx(&pkt2).unwrap();
    let msg2 = &pkt2[r2.payload_start..r2.payload_start + r2.payload_len];
    assert!(t.rx(r2.src_ip, msg2).is_none());
}

#[test]
fn emitter_writes_and_patches() {
    let mut e = new_emitter();
    mov_reg_imm(&mut e, REG_EAX, 0x1234_5678);
    assert_eq!(size(&e), 5);
    assert_eq!(&code(&e)[..5], &[0xB8, 0x78, 0x56, 0x34, 0x12]);
    patch_dword(&mut e, 1, 1);
    assert_eq!(&code(&e)[..5], &[0xB8, 1, 0, 0, 0]);
    assert_eq!(size(&e), 5);
}

#[test]
fn lexer_tokens() {
    let mut l = lex_init(b"fn main() {\n  42\n}".to_vec());
    l.next();
    assert_eq!(l.peek().tok_type, TOK_FN);
    l.next();
    assert_eq!(l.peek().tok_type, TOK_IDENT);
    assert!(l.peek().str_val.starts_with(b"main"));
    l.next();
    assert_eq!(l.peek().tok_type, TOK_LPAREN);
    l.next();
    l.next();
    l.next();
    assert_eq!(l.peek().tok_type, TOK_NUM);
    assert_eq!(l.peek().num_val, 42);
    assert_eq!(l.peek().line, 2);
    l.next();
    l.next();
    assert_eq!(l.peek().tok_type, TOK_EOF);
}

#[test]
fn memory_map_entries() {
    let mut m = Vec::new();
    for v in [20u32, 0x10_0000, 0, 0x70_0000, 0, 1] {
        m.extend_from_slice(&v.to_le_bytes());
    }
    assert_eq!(read_le32(&m, 4), 0x10_0000);
    let e = read_mmap_entry(&m, 0);
    assert_eq!((e.size, e.base_low, e.length_low, e.entry_type), (20, 0x10_0000, 0x70_0000, 1));
}
