use oracle::probe::{find_free_port, parse_netstat};

const SAMPLE: &str = "
Active Connections

  Proto  Local Address          Foreign Address        State           PID
  TCP    0.0.0.0:135            0.0.0.0:0              LISTENING       1128
  TCP    127.0.0.1:3000         0.0.0.0:0              LISTENING       24680
  TCP    127.0.0.1:3000         127.0.0.1:51234        ESTABLISHED     24680
  TCP    [::]:5432              [::]:0                 LISTENING       9012
";

#[test]
fn finds_the_listening_pid_for_a_port() {
    assert_eq!(parse_netstat(SAMPLE, 3000), Some(24680));
}

#[test]
fn ignores_established_connections() {
    // Port 51234 only ever appears as a foreign address, never as a listener.
    assert_eq!(parse_netstat(SAMPLE, 51234), None);
}

#[test]
fn handles_ipv6_bracket_notation() {
    assert_eq!(parse_netstat(SAMPLE, 5432), Some(9012));
}

#[test]
fn returns_none_for_an_unused_port() {
    assert_eq!(parse_netstat(SAMPLE, 9999), None);
}

#[test]
fn does_not_match_a_port_that_is_only_a_suffix() {
    // Port 35 must not match the row for port 135.
    assert_eq!(parse_netstat(SAMPLE, 35), None);
}

#[test]
fn the_search_stops_rather_than_overflowing() {
    // There is no port above u16::MAX to suggest, and wrapping to 0 would be worse than
    // admitting defeat.
    assert_eq!(find_free_port(u16::MAX, |_| false), None);
}

#[test]
fn a_taken_port_is_skipped_for_the_next_one() {
    let taken = 40123;
    let found = find_free_port(taken - 1, |p| p == taken).expect("some port above should be free");
    assert_ne!(found, taken);
    assert_eq!(found, taken + 1);
}

#[test]
fn the_search_gives_up_after_its_width() {
    assert_eq!(find_free_port(3000, |_| true), None);
    assert_eq!(find_free_port(3000, |p| p < 3064), Some(3064));
    assert_eq!(find_free_port(65534, |_| false), Some(65535));
}
