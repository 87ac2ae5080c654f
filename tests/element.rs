use sudoku::parse::{parse_number, split_words};
use sudoku::route::{default_route, parse_hex};
use sudoku::sample::{AppError, SampleRequest, SampleResponse, SampleService, Server};
use sudoku::Element;

#[test]
fn fresh_element_has_every_value() {
    let e = Element::default();
    assert!(!e.is_finalized());
    assert_eq!(e.possible().len(), 9);
    assert_eq!(e.ready(), None);
    assert_eq!(e.value(), None);
}

#[test]
fn finalize_keeps_one_candidate() {
    let mut e = Element::default();
    e.finalize(6);
    assert!(e.is_finalized());
    assert_eq!(e.value(), Some(6));
    assert_eq!(e.possible().iter().collect::<Vec<_>>(), vec![6]);
    assert_eq!(e.ready(), None);
}

#[test]
fn remove_down_to_one_makes_ready() {
    let mut e = Element::default();
    for v in 0..9 {
        if v != 3 {
            e.remove(v);
        }
    }
    e.remove(3);
    assert_eq!(e.possible().len(), 0);
    let mut e = Element::default();
    for v in 0..9 {
        if v != 7 {
            e.remove(v);
        }
    }
    assert_eq!(e.ready(), Some(7));
    assert!(!e.is_finalized());
}

#[test]
fn possible_is_a_snapshot() {
    let mut e = Element::default();
    let snap = e.possible();
    e.remove(2);
    assert!(snap.contains(2));
    assert!(!e.possible().contains(2));
}

#[test]
fn split_words_on_whitespace() {
    let w = split_words(" ab\tc  d \u{3000}e ");
    let w: Vec<String> = w.iter().map(|x| x.iter().collect()).collect();
    assert_eq!(w, vec!["ab", "c", "d", "e"]);
    assert!(split_words("   ").is_empty());
}

#[test]
fn numbers_read_like_usize_parse() {
    let n = |s: &str| parse_number(&s.chars().collect());
    assert_eq!(n("42"), Some(42));
    assert_eq!(n("+7"), Some(7));
    assert_eq!(n("007"), Some(7));
    assert_eq!(n("+"), None);
    assert_eq!(n(""), None);
    assert_eq!(n("-1"), None);
    assert_eq!(n("4a"), None);
    assert_eq!(n("18446744073709551615"), Some(usize::MAX));
    assert_eq!(n("18446744073709551616"), None);
}

#[test]
fn service_triples_and_counts() {
    let req = SampleRequest::new(14);
    assert_eq!(req.value(), 14);
    assert_eq!(SampleResponse::new(3).unwrap().value(), 3);
    let mut svc = SampleService::new();
    assert_eq!(svc.count(), 0);
    let resp = svc.call(req).unwrap();
    assert_eq!(resp.value(), 42);
    assert_eq!(svc.count(), 1);
}

#[test]
fn red_starts_unshown() {
    assert_eq!(sudoku::color::Red::default().val, [0u8]);
}

#[test]
fn server_needs_a_transceiver() {
    let empty = Server::<(), u8, ()>::builder().serve_with_shutdown((), ());
    match empty {
        Err(AppError::ServerConfig(msg)) => {
            assert_eq!(msg, "Trying to start server with no transceivers")
        }
        _ => panic!("expected a configuration error"),
    }
    let server = Server::<(), u8, ()>::builder()
        .with_transceiver(1)
        .with_transceiver(2)
        .serve_with_shutdown(7u32, ())
        .unwrap();
    assert_eq!(server.transceiver_count(), 2);
}

#[test]
fn default_route_is_first_zero_destination() {
    let lines: Vec<String> = vec![
        "Iface\tDestination\tGateway \tFlags\tRefCnt\tUse\tMetric\tMask",
        "br0\t00000A0A\t00000000\t0001\t0\t0\t0\t00FCFFFF",
        "br0\t00000000\t01000A0A\t0003\t0\t0\t100\t00000000",
        "eth1\t00000000\t02000A0A\t0003\t0\t0\t100\t00000000",
    ]
    .iter()
    .map(|s| s.to_string())
    .collect();
    let (dev, gw) = default_route(&lines).unwrap();
    assert_eq!(dev.iter().collect::<String>(), "br0");
    assert_eq!(gw, 0x01000A0A);
    assert_eq!(default_route(&lines[..2].to_vec()), None);
}

#[test]
fn hex_reads_like_from_str_radix() {
    let h = |s: &str| parse_hex(&s.chars().collect());
    assert_eq!(h("01000A0A"), Some(0x01000A0A));
    assert_eq!(h("ff"), Some(255));
    assert_eq!(h("+Ff"), Some(255));
    assert_eq!(h("FFFFFFFF"), Some(u32::MAX));
    assert_eq!(h("100000000"), None);
    assert_eq!(h("g1"), None);
    assert_eq!(h(""), None);
}
