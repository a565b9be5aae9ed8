use tunnel::port_scanner::count_statuses;
use tunnel::port_scanner::decimal_string;
use tunnel::port_scanner::parse_ports;
use tunnel::port_scanner::parse_u16;
use tunnel::port_scanner::port_column_width;
use tunnel::port_scanner::scan_target;
use tunnel::port_scanner::status_label;
use tunnel::port_scanner::PortParseError;
use tunnel::port_scanner::PortStatus;

#[test]
fn single_ports_and_ranges_sorted_and_deduplicated() {
    assert_eq!(parse_ports("80,22,8000-8003,81,22").unwrap(), vec![22, 80, 81, 8000, 8001, 8002, 8003]);
}

#[test]
fn overlapping_ranges() {
    assert_eq!(parse_ports("5-7,6-9,7").unwrap(), vec![5, 6, 7, 8, 9]);
}

#[test]
fn full_range_edges() {
    let all = parse_ports("0-65535").unwrap();
    assert_eq!(all.len(), 65536);
    assert_eq!(all[0], 0);
    assert_eq!(all[65535], 65535);
    assert_eq!(parse_ports("65535").unwrap(), vec![65535]);
}

#[test]
fn plus_sign_and_leading_zeros() {
    assert_eq!(parse_ports("+443,0080").unwrap(), vec![80, 443]);
}

#[test]
fn invalid_numbers() {
    assert_eq!(parse_ports("").unwrap_err(), PortParseError::InvalidNumber);
    assert_eq!(parse_ports("80,").unwrap_err(), PortParseError::InvalidNumber);
    assert_eq!(parse_ports("65536").unwrap_err(), PortParseError::InvalidNumber);
    assert_eq!(parse_ports("8a").unwrap_err(), PortParseError::InvalidNumber);
    assert_eq!(parse_ports(" 80").unwrap_err(), PortParseError::InvalidNumber);
}

#[test]
fn invalid_ranges() {
    assert_eq!(parse_ports("10-5").unwrap_err(), PortParseError::InvalidRange);
    assert_eq!(parse_ports("1-2-3").unwrap_err(), PortParseError::InvalidRange);
    assert_eq!(parse_ports("-5").unwrap_err(), PortParseError::InvalidRange);
    assert_eq!(parse_ports("5-").unwrap_err(), PortParseError::InvalidRange);
    assert_eq!(parse_ports("1-70000").unwrap_err(), PortParseError::InvalidRange);
}

#[test]
fn first_bad_item_decides() {
    assert_eq!(parse_ports("x,9-1").unwrap_err(), PortParseError::InvalidNumber);
    assert_eq!(parse_ports("9-1,x").unwrap_err(), PortParseError::InvalidRange);
}

#[test]
fn u16_parsing() {
    assert_eq!(parse_u16("0"), Some(0));
    assert_eq!(parse_u16("+"), None);
    assert_eq!(parse_u16("-1"), None);
    assert_eq!(parse_u16("99999999999"), None);
    assert_eq!(parse_u16("12345"), Some(12345));
}

#[test]
fn summary_counts() {
    let statuses = vec![
        PortStatus { port: 22, is_open: true },
        PortStatus { port: 80, is_open: false },
        PortStatus { port: 443, is_open: true },
    ];
    assert_eq!(count_statuses(&statuses), (2, 1));
    assert_eq!(count_statuses(&Vec::new()), (0, 0));
}

#[test]
fn labels_and_widths() {
    assert_eq!(status_label(true), "OPEN");
    assert_eq!(status_label(false), "CLOSED");
    assert_eq!(port_column_width(&vec![22, 8080, 443]), 4);
    assert_eq!(port_column_width(&vec![7]), 1);
    assert_eq!(decimal_string(0), "0");
    assert_eq!(decimal_string(65535), "65535");
    assert_eq!(decimal_string(1000), "1000");
}

#[test]
fn connect_target() {
    assert_eq!(scan_target("127.0.0.1", 8080), "127.0.0.1:8080");
    assert_eq!(scan_target("example.com", 7), "example.com:7");
}

#[test]
fn joined_lists_give_sorted_union_in_any_order() {
    let ab = parse_ports("90-92,10,80-81").unwrap();
    let ba = parse_ports("80-81,90-92,10").unwrap();
    assert_eq!(ab, vec![10, 80, 81, 90, 91, 92]);
    assert_eq!(ab, ba);
}

#[test]
fn printed_list_parses_back() {
    let v = parse_ports("443,22,8080-8082").unwrap();
    let text = v.iter().map(|p| decimal_string(*p)).collect::<Vec<_>>().join(",");
    assert_eq!(text, "22,443,8080,8081,8082");
    assert_eq!(parse_ports(&text).unwrap(), v);
}
