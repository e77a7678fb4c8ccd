use systemstat::linux::time;
use systemstat::network::{netmask_v4, netmask_v6, networks, InterfaceAddr, IpAddr, NetworkAddrs};

fn octets(text: &str) -> [u8; 4] {
    let mut r = [0u8; 4];
    for (i, part) in text.split('.').enumerate() {
        r[i] = part.parse().unwrap();
    }
    r
}

fn segments(text: &str) -> [u16; 8] {
    let (head, tail) = match text.find("::") {
        Some(p) => (&text[..p], &text[p + 2..]),
        None => (text, ""),
    };
    let head: Vec<u16> = head.split(':').filter(|s| !s.is_empty()).map(|s| u16::from_str_radix(s, 16).unwrap()).collect();
    let tail: Vec<u16> = tail.split(':').filter(|s| !s.is_empty()).map(|s| u16::from_str_radix(s, 16).unwrap()).collect();
    let mut r = [0u16; 8];
    for (i, v) in head.iter().enumerate() {
        r[i] = *v;
    }
    for (i, v) in tail.iter().enumerate() {
        r[8 - tail.len() + i] = *v;
    }
    r
}

#[test]
fn netmask_v4_test() {
    vec![
        (0, "0.0.0.0"),
        (1, "128.0.0.0"),
        (2, "192.0.0.0"),
        (3, "224.0.0.0"),
        (4, "240.0.0.0"),
        (5, "248.0.0.0"),
        (6, "252.0.0.0"),
        (7, "254.0.0.0"),
        (8, "255.0.0.0"),
        (9, "255.128.0.0"),
        (10, "255.192.0.0"),
        (11, "255.224.0.0"),
        (12, "255.240.0.0"),
        (13, "255.248.0.0"),
        (14, "255.252.0.0"),
        (15, "255.254.0.0"),
        (16, "255.255.0.0"),
        (17, "255.255.128.0"),
        (18, "255.255.192.0"),
        (19, "255.255.224.0"),
        (20, "255.255.240.0"),
        (21, "255.255.248.0"),
        (22, "255.255.252.0"),
        (23, "255.255.254.0"),
        (24, "255.255.255.0"),
        (25, "255.255.255.128"),
        (26, "255.255.255.192"),
        (27, "255.255.255.224"),
        (28, "255.255.255.240"),
        (29, "255.255.255.248"),
        (30, "255.255.255.252"),
        (31, "255.255.255.254"),
        (32, "255.255.255.255"),
    ]
    .into_iter()
    .for_each(|(i, addr)| assert_eq!(netmask_v4(i), octets(addr)))
}

#[test]
fn netmask_v6_test() {
    vec![
        (0, "::"),
        (1, "8000::"),
        (2, "c000::"),
        (3, "e000::"),
        (4, "f000::"),
        (5, "f800::"),
        (6, "fc00::"),
        (7, "fe00::"),
        (8, "ff00::"),
        (9, "ff80::"),
        (10, "ffc0::"),
        (11, "ffe0::"),
        (12, "fff0::"),
        (13, "fff8::"),
        (14, "fffc::"),
        (15, "fffe::"),
        (16, "ffff::"),
        (17, "ffff:8000::"),
        (18, "ffff:c000::"),
        (19, "ffff:e000::"),
        (20, "ffff:f000::"),
        (21, "ffff:f800::"),
        (22, "ffff:fc00::"),
        (23, "ffff:fe00::"),
        (24, "ffff:ff00::"),
        (25, "ffff:ff80::"),
        (26, "ffff:ffc0::"),
        (27, "ffff:ffe0::"),
        (28, "ffff:fff0::"),
        (29, "ffff:fff8::"),
        (30, "ffff:fffc::"),
        (31, "ffff:fffe::"),
        (32, "ffff:ffff::"),
        (33, "ffff:ffff:8000::"),
        (34, "ffff:ffff:c000::"),
        (35, "ffff:ffff:e000::"),
        (36, "ffff:ffff:f000::"),
        (37, "ffff:ffff:f800::"),
        (38, "ffff:ffff:fc00::"),
        (39, "ffff:ffff:fe00::"),
        (40, "ffff:ffff:ff00::"),
        (41, "ffff:ffff:ff80::"),
        (42, "ffff:ffff:ffc0::"),
        (43, "ffff:ffff:ffe0::"),
        (44, "ffff:ffff:fff0::"),
        (45, "ffff:ffff:fff8::"),
        (46, "ffff:ffff:fffc::"),
        (47, "ffff:ffff:fffe::"),
        (48, "ffff:ffff:ffff::"),
        (49, "ffff:ffff:ffff:8000::"),
        (50, "ffff:ffff:ffff:c000::"),
        (51, "ffff:ffff:ffff:e000::"),
        (52, "ffff:ffff:ffff:f000::"),
        (53, "ffff:ffff:ffff:f800::"),
        (54, "ffff:ffff:ffff:fc00::"),
        (55, "ffff:ffff:ffff:fe00::"),
        (56, "ffff:ffff:ffff:ff00::"),
        (57, "ffff:ffff:ffff:ff80::"),
        (58, "ffff:ffff:ffff:ffc0::"),
        (59, "ffff:ffff:ffff:ffe0::"),
        (60, "ffff:ffff:ffff:fff0::"),
        (61, "ffff:ffff:ffff:fff8::"),
        (62, "ffff:ffff:ffff:fffc::"),
        (63, "ffff:ffff:ffff:fffe::"),
        (64, "ffff:ffff:ffff:ffff::"),
        (65, "ffff:ffff:ffff:ffff:8000::"),
        (66, "ffff:ffff:ffff:ffff:c000::"),
        (67, "ffff:ffff:ffff:ffff:e000::"),
        (68, "ffff:ffff:ffff:ffff:f000::"),
        (69, "ffff:ffff:ffff:ffff:f800::"),
        (70, "ffff:ffff:ffff:ffff:fc00::"),
        (71, "ffff:ffff:ffff:ffff:fe00::"),
        (72, "ffff:ffff:ffff:ffff:ff00::"),
        (73, "ffff:ffff:ffff:ffff:ff80::"),
        (74, "ffff:ffff:ffff:ffff:ffc0::"),
        (75, "ffff:ffff:ffff:ffff:ffe0::"),
        (76, "ffff:ffff:ffff:ffff:fff0::"),
        (77, "ffff:ffff:ffff:ffff:fff8::"),
        (78, "ffff:ffff:ffff:ffff:fffc::"),
        (79, "ffff:ffff:ffff:ffff:fffe::"),
        (80, "ffff:ffff:ffff:ffff:ffff::"),
        (81, "ffff:ffff:ffff:ffff:ffff:8000::"),
        (82, "ffff:ffff:ffff:ffff:ffff:c000::"),
        (83, "ffff:ffff:ffff:ffff:ffff:e000::"),
        (84, "ffff:ffff:ffff:ffff:ffff:f000::"),
        (85, "ffff:ffff:ffff:ffff:ffff:f800::"),
        (86, "ffff:ffff:ffff:ffff:ffff:fc00::"),
        (87, "ffff:ffff:ffff:ffff:ffff:fe00::"),
        (88, "ffff:ffff:ffff:ffff:ffff:ff00::"),
        (89, "ffff:ffff:ffff:ffff:ffff:ff80::"),
        (90, "ffff:ffff:ffff:ffff:ffff:ffc0::"),
        (91, "ffff:ffff:ffff:ffff:ffff:ffe0::"),
        (92, "ffff:ffff:ffff:ffff:ffff:fff0::"),
        (93, "ffff:ffff:ffff:ffff:ffff:fff8::"),
        (94, "ffff:ffff:ffff:ffff:ffff:fffc::"),
        (95, "ffff:ffff:ffff:ffff:ffff:fffe::"),
        (96, "ffff:ffff:ffff:ffff:ffff:ffff::"),
        (97, "ffff:ffff:ffff:ffff:ffff:ffff:8000:0"),
        (98, "ffff:ffff:ffff:ffff:ffff:ffff:c000:0"),
        (99, "ffff:ffff:ffff:ffff:ffff:ffff:e000:0"),
        (100, "ffff:ffff:ffff:ffff:ffff:ffff:f000:0"),
        (101, "ffff:ffff:ffff:ffff:ffff:ffff:f800:0"),
        (102, "ffff:ffff:ffff:ffff:ffff:ffff:fc00:0"),
        (103, "ffff:ffff:ffff:ffff:ffff:ffff:fe00:0"),
        (104, "ffff:ffff:ffff:ffff:ffff:ffff:ff00:0"),
        (105, "ffff:ffff:ffff:ffff:ffff:ffff:ff80:0"),
        (106, "ffff:ffff:ffff:ffff:ffff:ffff:ffc0:0"),
        (107, "ffff:ffff:ffff:ffff:ffff:ffff:ffe0:0"),
        (108, "ffff:ffff:ffff:ffff:ffff:ffff:fff0:0"),
        (109, "ffff:ffff:ffff:ffff:ffff:ffff:fff8:0"),
        (110, "ffff:ffff:ffff:ffff:ffff:ffff:fffc:0"),
        (111, "ffff:ffff:ffff:ffff:ffff:ffff:fffe:0"),
        (112, "ffff:ffff:ffff:ffff:ffff:ffff:ffff:0"),
        (113, "ffff:ffff:ffff:ffff:ffff:ffff:ffff:8000"),
        (114, "ffff:ffff:ffff:ffff:ffff:ffff:ffff:c000"),
        (115, "ffff:ffff:ffff:ffff:ffff:ffff:ffff:e000"),
        (116, "ffff:ffff:ffff:ffff:ffff:ffff:ffff:f000"),
        (117, "ffff:ffff:ffff:ffff:ffff:ffff:ffff:f800"),
        (118, "ffff:ffff:ffff:ffff:ffff:ffff:ffff:fc00"),
        (119, "ffff:ffff:ffff:ffff:ffff:ffff:ffff:fe00"),
        (120, "ffff:ffff:ffff:ffff:ffff:ffff:ffff:ff00"),
        (121, "ffff:ffff:ffff:ffff:ffff:ffff:ffff:ff80"),
        (122, "ffff:ffff:ffff:ffff:ffff:ffff:ffff:ffc0"),
        (123, "ffff:ffff:ffff:ffff:ffff:ffff:ffff:ffe0"),
        (124, "ffff:ffff:ffff:ffff:ffff:ffff:ffff:fff0"),
        (125, "ffff:ffff:ffff:ffff:ffff:ffff:ffff:fff8"),
        (126, "ffff:ffff:ffff:ffff:ffff:ffff:ffff:fffc"),
        (127, "ffff:ffff:ffff:ffff:ffff:ffff:ffff:fffe"),
        (128, "ffff:ffff:ffff:ffff:ffff:ffff:ffff:ffff"),
    ]
    .into_iter()
    .for_each(|(i, addr)| assert_eq!(netmask_v6(i), segments(addr)))
}

fn entry(name: &str, addr: IpAddr) -> InterfaceAddr {
    InterfaceAddr { name: name.to_string(), addr, netmask: IpAddr::V4([255, 0, 0, 0]) }
}

#[test]
fn addresses_grouped_per_interface() {
    let list = vec![
        entry("lo", IpAddr::V4([127, 0, 0, 1])),
        entry("eth0", IpAddr::Unsupported),
        entry("lo", IpAddr::V6([0, 0, 0, 0, 0, 0, 0, 1])),
        entry("eth0", IpAddr::V4([10, 0, 0, 2])),
        entry("wlan0", IpAddr::Unsupported),
        entry("lo", IpAddr::Empty),
    ];
    let n = networks(list);
    assert_eq!(n.len(), 3);
    assert_eq!(n[0].name, "lo");
    assert_eq!(
        n[0].addrs,
        vec![
            NetworkAddrs { addr: IpAddr::V4([127, 0, 0, 1]), netmask: IpAddr::V4([255, 0, 0, 0]) },
            NetworkAddrs { addr: IpAddr::V6([0, 0, 0, 0, 0, 0, 0, 1]), netmask: IpAddr::V4([255, 0, 0, 0]) },
            NetworkAddrs { addr: IpAddr::Empty, netmask: IpAddr::V4([255, 0, 0, 0]) },
        ]
    );
    assert_eq!(n[1].name, "eth0");
    assert_eq!(n[1].addrs.len(), 1);
    assert_eq!(n[2].name, "wlan0");
    assert!(n[2].addrs.is_empty());
}

#[test]
fn battery_time_charging_and_discharging() {
    assert_eq!(time(true, 1000, 400, 300), 7200);
    assert_eq!(time(false, 1000, 400, 300), 4800);
    assert_eq!(time(true, 1000, 1100, 100), 3600);
    assert_eq!(time(false, 1000, 400, 0), 0);
    assert_eq!(time(true, -5, i32::MIN, 0), 0);
    assert_eq!(time(false, 1000, -400, 300), 0);
    assert_eq!(time(true, 1000, 400, -3), 0);
    assert_eq!(time(true, i32::MAX, i32::MIN, 3600), 4294967295);
}
