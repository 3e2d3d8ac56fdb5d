use portman::monitor::{confirms_kill, parse_pid, parse_port_list, MonitorError};
use portman::numbers::{decimal_chars, parse_unsigned_exec};
use portman::proc_net::{
    listen_rows_complete_exec, listening_ports, listening_sockets, parse_port, socket_owners,
    PortParseError,
};
use portman::ss::{links_to_socket, ss_pid_for_inode, ss_port_owner_pids, ss_port_pids};
use portman::text::{chars_of, fields_of, lines_of, pieces_of, trim_chars};

fn chars(s: &str) -> Vec<char> {
    s.chars().collect()
}

fn rows(v: &[Vec<char>]) -> Vec<String> {
    v.iter().map(|r| r.iter().collect()).collect()
}

const TABLE: &str = "  sl  local_address rem_address   st tx_queue rx_queue tr tm->when retrnsmt   uid  timeout inode
   0: 0100007F:1F90 00000000:0000 0A 00000000:00000000 00:00000000 00000000  1000        0 41234 1 0000000000000000 100 0 0 10 0
   1: 00000000:0016 00000000:0000 0A 00000000:00000000 00:00000000 00000000     0        0 22222 1 0000000000000000 100 0 0 10 0
   2: 0100007F:1F90 0100007F:C350 01 00000000:00000000 00:00000000 00000000  1000        0 33333 1 0000000000000000 20 4 30 10 -1
   3: 00000000:1F90 00000000:0000 0A 00000000:00000000 00:00000000 00000000  1000        0 44444 1 0000000000000000 100 0 0 10 0
";

#[test]
fn parse_port_reads_hexadecimal_port() {
    assert_eq!(parse_port("0100007F:1F90"), Ok(8080));
    assert_eq!(parse_port("00000000:0016"), Ok(22));
    assert_eq!(parse_port("00000000:ffff"), Ok(65535));
    assert_eq!(parse_port("1:+50"), Ok(0x50));
}

#[test]
fn parse_port_rejects_bad_fields() {
    assert_eq!(parse_port("0100007F"), Err(PortParseError::InvalidFormat));
    assert_eq!(parse_port("0:0:16"), Err(PortParseError::InvalidFormat));
    assert_eq!(parse_port(""), Err(PortParseError::InvalidFormat));
    assert_eq!(parse_port("1:"), Err(PortParseError::InvalidNumber));
    assert_eq!(parse_port("1:10000"), Err(PortParseError::InvalidNumber));
    assert_eq!(parse_port("1:zz"), Err(PortParseError::InvalidNumber));
    assert_eq!(parse_port("1:+"), Err(PortParseError::InvalidNumber));
    assert_eq!(parse_port("1:-5"), Err(PortParseError::InvalidNumber));
}

#[test]
fn listening_ports_are_sorted_and_unique() {
    assert_eq!(listening_ports(TABLE), vec![22, 8080]);
}

#[test]
fn listening_ports_skip_header_and_non_listening_rows() {
    let table = "0: 0100007F:0050 00000000:0000 0A\n1: 0100007F:0051 00000000:0000 01\n2: x y\n";
    assert_eq!(listening_ports(table), Vec::<u16>::new());
    assert_eq!(listening_ports(""), Vec::<u16>::new());
    let table = "header\n0: 0100007F:0050 00000000:0000 0A\n1: bad 00000000:0000 0A\n";
    assert_eq!(listening_ports(table), vec![80]);
}

#[test]
fn listening_sockets_keep_row_order() {
    assert!(listen_rows_complete_exec(TABLE));
    assert_eq!(listening_sockets(TABLE), vec![(8080, 41234), (22, 22222), (8080, 44444)]);
}

#[test]
fn short_listening_row_is_incomplete() {
    let table = "header\n0: 0100007F:0050 00000000:0000 0A 1 2\n";
    assert!(!listen_rows_complete_exec(table));
    let table = "header\n0: 0100007F:0050 00000000:0000 01 1 2\n";
    assert!(listen_rows_complete_exec(table));
}

const SS: &str = "State  Recv-Q Send-Q Local Address:Port Peer Address:Port Process
LISTEN 0      1      127.0.0.1:9999     0.0.0.0:*     users:((\"nc\",pid=26629,fd=3))
LISTEN 0      128    0.0.0.0:22         0.0.0.0:*     users:((\"sshd\",pid=812,fd=3))
LISTEN 0      128    [::]:22            [::]:*        users:((\"sshd\",pid=812,fd=4))
LISTEN 0      511    *:8080             *:*           users:((\"node\",pid=4242,fd=20),(\"node\",pid=4243,fd=20))
LISTEN 0      128    127.0.0.1:631      0.0.0.0:*
LISTEN 0      10     127.0.0.1:9999     0.0.0.0:*     users:((\"nc\",pid=31337,fd=3))
";

#[test]
fn ss_owner_pids_follow_the_port() {
    assert_eq!(ss_port_owner_pids(SS, 9999), vec![26629, 31337]);
    assert_eq!(ss_port_owner_pids(SS, 22), vec![812, 812]);
    assert_eq!(ss_port_owner_pids(SS, 8080), vec![4242]);
    assert_eq!(ss_port_owner_pids(SS, 631), Vec::<u32>::new());
    assert_eq!(ss_port_owner_pids(SS, 80), Vec::<u32>::new());
    assert_eq!(ss_port_owner_pids("", 22), Vec::<u32>::new());
}

#[test]
fn ss_owner_needs_the_local_port_itself() {
    let report = "LISTEN 0 511 127.0.0.1:30001 0.0.0.0:* users:((\"redis\",pid=77,fd=6))\n";
    assert_eq!(ss_port_owner_pids(report, 3000), Vec::<u32>::new());
    assert_eq!(ss_port_owner_pids(report, 30001), vec![77]);
    let report = "LISTEN 0 511 127.0.0.1:4000 10.0.0.1:3000 users:((\"x\",pid=9,fd=6))\n";
    assert_eq!(ss_port_owner_pids(report, 3000), Vec::<u32>::new());
    assert_eq!(ss_port_owner_pids("LISTEN 0 pid=3 :22\n", 22), Vec::<u32>::new());
}

#[test]
fn ss_port_pids_list_all_interfaces() {
    let report = "LISTEN 0 511 0.0.0.0:8080 0.0.0.0:* users:((\"node\",pid=42,fd=20))\n";
    assert_eq!(ss_port_pids(report), vec![(8080, 42)]);
}

#[test]
fn ss_port_pids_one_per_port_last_wins() {
    assert_eq!(ss_port_pids(SS), vec![(22, 812), (8080, 4242), (9999, 31337)]);
}

#[test]
fn ss_port_pids_take_first_address_with_port() {
    let report = "LISTEN 0 1 [::1]:631 [::]:* users:((\"cupsd\",pid=77,fd=7))\n\
                  LISTEN 0 1 ::ffff:1.2.3.4:70 x users:((\"a\",pid=5,fd=1))\n\
                  LISTEN 0 1 10.0.0.1:5432 x users:((\"pg\",pid=bad,fd=1))\n";
    assert_eq!(ss_port_pids(report), vec![(70, 5), (631, 77)]);
}

#[test]
fn socket_links_name_the_inode() {
    assert!(links_to_socket("socket:[41234]", 41234));
    assert!(!links_to_socket("socket:[41234]", 4123));
    assert!(!links_to_socket("pipe:[41234]", 41234));
    assert!(links_to_socket("socket:[0]", 0));
}

#[test]
fn ss_fallback_finds_pid_before_slash() {
    let report = "tcp LISTEN 0 128 0.0.0.0:22 0.0.0.0:* 812/sshd ino:41234\n\
                  tcp LISTEN 0 128 41234: 0.0.0.0:* 900/other\n";
    assert_eq!(ss_pid_for_inode(report, 41234), Some(900));
    let report = "socket 41234 abc 77/prog\n";
    assert_eq!(ss_pid_for_inode(report, 41234), Some(77));
    assert_eq!(ss_pid_for_inode(report, 5), None);
    let report = "socket 41234 x/prog\nsocket 41234 78/prog\n";
    assert_eq!(ss_pid_for_inode(report, 41234), Some(78));
}

#[test]
fn port_lists_keep_valid_pieces() {
    assert_eq!(parse_port_list("3000, 5432,abc,,8080"), Ok(vec![3000, 5432, 8080]));
    assert_eq!(parse_port_list(" +80 "), Ok(vec![80]));
    assert_eq!(parse_port_list("3000"), Ok(vec![3000]));
    assert_eq!(parse_port_list("abc"), Err(MonitorError::NoValidPorts));
    assert_eq!(parse_port_list(""), Err(MonitorError::NoValidPorts));
    assert_eq!(parse_port_list("70000"), Err(MonitorError::NoValidPorts));
}

#[test]
fn kill_confirmation_accepts_y_and_yes() {
    assert!(confirms_kill("y\n"));
    assert!(confirms_kill(" YES "));
    assert!(confirms_kill("Yes"));
    assert!(confirms_kill("Y"));
    assert!(!confirms_kill("n"));
    assert!(!confirms_kill("yess"));
    assert!(!confirms_kill(""));
    assert!(!confirms_kill("y e s"));
}

#[test]
fn pids_read_as_decimal() {
    assert_eq!(parse_pid("1234"), Some(1234));
    assert_eq!(parse_pid("4294967295"), Some(u32::MAX));
    assert_eq!(parse_pid("4294967296"), None);
    assert_eq!(parse_pid("self"), None);
    assert_eq!(parse_pid(""), None);
}

#[test]
fn unsigned_numbers_follow_from_str_radix() {
    assert_eq!(parse_unsigned_exec(&chars("0000"), 10, 100), Some(0));
    assert_eq!(parse_unsigned_exec(&chars("+"), 10, 100), None);
    assert_eq!(parse_unsigned_exec(&chars(""), 10, 100), None);
    assert_eq!(parse_unsigned_exec(&chars("101"), 10, 100), None);
    assert_eq!(parse_unsigned_exec(&chars("100"), 10, 100), Some(100));
    assert_eq!(parse_unsigned_exec(&chars("fF"), 16, 255), Some(255));
    assert_eq!(parse_unsigned_exec(&chars("18446744073709551615"), 10, u64::MAX), Some(u64::MAX));
    assert_eq!(parse_unsigned_exec(&chars("18446744073709551616"), 10, u64::MAX), None);
    assert_eq!(parse_unsigned_exec(&chars("１"), 10, 100), None);
}

#[test]
fn decimal_numerals() {
    assert_eq!(decimal_chars(0), chars("0"));
    assert_eq!(decimal_chars(8080), chars("8080"));
    assert_eq!(decimal_chars(u64::MAX), chars("18446744073709551615"));
}

#[test]
fn lines_follow_str_lines() {
    for s in ["", "a", "a\n", "a\r\nb", "a\n\nb\n", "a\r", "\n", "x\r\r\n"] {
        let expected: Vec<String> = s.lines().map(|l| l.to_string()).collect();
        assert_eq!(rows(&lines_of(&chars_of(s))), expected, "{:?}", s);
    }
}

#[test]
fn fields_follow_split_whitespace() {
    for s in ["", "  ", "a b", " a\t\tb \n c ", "x\u{a0}y\u{3000}z", "a\u{200b}b"] {
        let expected: Vec<String> = s.split_whitespace().map(|l| l.to_string()).collect();
        assert_eq!(rows(&fields_of(&chars_of(s))), expected, "{:?}", s);
    }
}

#[test]
fn pieces_follow_split() {
    for s in ["", ",", "a,b", ",a,,b,"] {
        let expected: Vec<String> = s.split(',').map(|l| l.to_string()).collect();
        assert_eq!(rows(&pieces_of(&chars_of(s), ',')), expected, "{:?}", s);
    }
}

#[test]
fn trim_follows_str_trim() {
    for s in ["", "  ", " a b ", "\u{2028}x\u{85}", "x"] {
        let got: String = trim_chars(&chars_of(s)).iter().collect();
        assert_eq!(got, s.trim(), "{:?}", s);
    }
}

#[test]
fn socket_owners_keep_found_lookups() {
    let sockets = vec![(8080, 1), (22, 2), (443, 3)];
    assert_eq!(socket_owners(&sockets, &vec![Some(10), None, Some(30)]), vec![(8080, 10), (443, 30)]);
    assert_eq!(socket_owners(&vec![], &vec![]), Vec::<(u16, u32)>::new());
}

#[test]
fn ss_port_pids_take_the_first_field_with_a_port() {
    let report = "LISTEN 0 5 [fe80::1]%eth0:* 10.0.0.1:7000 users:((\"a\",pid=3,fd=1))\n";
    assert_eq!(ss_port_pids(report), vec![(7000, 3)]);
    let report = "LISTEN 0 5 :::22 :::* users:((\"sshd\",pid=4,fd=3))\n";
    assert_eq!(ss_port_pids(report), vec![(22, 4)]);
}

#[test]
fn hex_ports_read_back() {
    for p in [0u16, 1, 22, 80, 443, 3000, 8080, 0x1F90, 65535] {
        assert_eq!(parse_port(&format!("0100007F:{:04X}", p)), Ok(p));
        assert_eq!(parse_port(&format!("00000000000000000000000001000000:{:x}", p)), Ok(p));
    }
}
