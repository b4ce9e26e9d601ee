use dnskit::hints::{random_root_server, root_servers};

#[test]
fn root_servers_a_to_m() {
    let servers = root_servers();
    assert_eq!(servers.len(), 13);
    for (i, s) in servers.iter().enumerate() {
        let letter = (b'a' + i as u8) as char;
        assert_eq!(s.name, format!("{letter}.root-servers.net"));
    }
    assert_eq!(servers[0].ipv4, [198, 41, 0, 4]);
    assert_eq!(servers[0].ipv6, [0x2001, 0x503, 0xba3e, 0, 0, 0, 0x2, 0x30]);
    assert_eq!(servers[12].operator, "WIDE Project");
    assert_eq!(servers[6].ipv6[7], 0xd0d);
}

#[test]
fn random_root_server_is_a_root_server() {
    let servers = root_servers();
    for _ in 0..50 {
        let s = random_root_server();
        assert!(servers.contains(&s));
    }
}
