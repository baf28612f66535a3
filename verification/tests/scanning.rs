use ipscanner::compare_ips;
use ipscanner::sort_by_last_octet;
use ipscanner::InputIp;
use ipscanner::IpAddressRange;
use ipscanner::ScanCoordinator;
use ipscanner::ScanError;
use ipscanner::ScanStep;

fn owned(items: &[&str]) -> Vec<String> {
    items.iter().map(|s| s.to_string()).collect()
}

#[test]
fn ip_parses() {
    let result = InputIp::parse("192.168.86.127", 1, 255).unwrap();
    assert_eq!([192, 168, 86], result.ip_triplet());
    println!("{}", result.to_string())
}

#[test]
fn ip_count_is_correct() {
    let result = InputIp::parse("192.168.86.127", 1, 255).unwrap();
    let mut ip_addr_range = IpAddressRange::new();
    ip_addr_range.generate(&result);
    assert_eq!(254, ip_addr_range.ip_count());
}

#[test]
fn test_sort() {
    let mut p = vec![
        "192.168.86.31",
        "192.168.86.36",
        "192.168.86.53",
        "192.168.86.33",
        "192.168.86.34",
        "192.168.86.216",
        "192.168.86.35",
        "192.168.86.140",
        "192.168.86.72",
        "192.168.86.48",
        "192.168.86.200",
        "192.168.86.23",
        "192.168.86.122",
        "192.168.86.204",
        "192.168.86.1",
        "192.168.86.40",
        "192.168.86.62",
        "192.168.86.25",
        "192.168.86.42",
        "192.168.86.24",
        "192.168.86.130",
        "192.168.86.250",
        "192.168.86.55",
        "192.168.86.43",
        "192.168.86.37",
        "192.168.86.29",
        "192.168.86.2",
    ];
    p.sort_by(|x: &&str, x1: &&str| compare_ips::<&str>(x, x1));
    println!("Sorted {:?}", p)
}

#[test]
fn sort_puts_last_octets_in_ascending_order() {
    let p = owned(&[
        "192.168.86.31",
        "192.168.86.36",
        "192.168.86.53",
        "192.168.86.33",
        "192.168.86.34",
        "192.168.86.216",
        "192.168.86.35",
        "192.168.86.140",
        "192.168.86.72",
        "192.168.86.48",
        "192.168.86.200",
        "192.168.86.23",
        "192.168.86.122",
        "192.168.86.204",
        "192.168.86.1",
        "192.168.86.40",
        "192.168.86.62",
        "192.168.86.25",
        "192.168.86.42",
        "192.168.86.24",
        "192.168.86.130",
        "192.168.86.250",
        "192.168.86.55",
        "192.168.86.43",
        "192.168.86.37",
        "192.168.86.29",
        "192.168.86.2",
    ]);
    let sorted = sort_by_last_octet(&p);
    let expected = owned(&[
        "192.168.86.1",
        "192.168.86.2",
        "192.168.86.23",
        "192.168.86.24",
        "192.168.86.25",
        "192.168.86.29",
        "192.168.86.31",
        "192.168.86.33",
        "192.168.86.34",
        "192.168.86.35",
        "192.168.86.36",
        "192.168.86.37",
        "192.168.86.40",
        "192.168.86.42",
        "192.168.86.43",
        "192.168.86.48",
        "192.168.86.53",
        "192.168.86.55",
        "192.168.86.62",
        "192.168.86.72",
        "192.168.86.122",
        "192.168.86.130",
        "192.168.86.140",
        "192.168.86.200",
        "192.168.86.204",
        "192.168.86.216",
        "192.168.86.250",
    ]);
    assert_eq!(expected, sorted);
}

#[test]
fn sort_agrees_with_sorting_by_compare_ips() {
    let p = owned(&["10.0.0.9", "10.0.1.3", "10.0.0.3", "10.0.2.200", "10.0.0.0", "10.0.3.9"]);
    let mut by_comparison = p.clone();
    by_comparison.sort_by(|a, b| compare_ips::<&str>(a, b));
    assert_eq!(by_comparison, sort_by_last_octet(&p));
}

#[test]
fn sort_keeps_arrival_order_among_equal_last_octets() {
    let p = owned(&["10.0.1.5", "10.0.0.7", "10.0.0.5", "10.0.2.5", "10.0.0.1"]);
    let sorted = sort_by_last_octet(&p);
    assert_eq!(owned(&["10.0.0.1", "10.0.1.5", "10.0.0.5", "10.0.2.5", "10.0.0.7"]), sorted);
}

#[test]
fn sort_is_by_number_and_not_by_text() {
    let p = owned(&["192.168.86.100", "192.168.86.20", "192.168.86.3"]);
    let sorted = sort_by_last_octet(&p);
    assert_eq!(owned(&["192.168.86.3", "192.168.86.20", "192.168.86.100"]), sorted);
}

#[test]
fn sort_of_nothing_is_nothing() {
    assert_eq!(Vec::<String>::new(), sort_by_last_octet(&Vec::new()));
}

#[test]
fn generator_yields_the_host_range_of_a_prefix() {
    let input = InputIp::parse("192.168.86", 1, 255).unwrap();
    let mut range = IpAddressRange::new();
    range.generate(&input);
    assert_eq!(254, range.ip_count());
    assert_eq!("192.168.86.1", range.ip_addresses[0]);
    assert_eq!("192.168.86.2", range.ip_addresses[1]);
    assert_eq!("192.168.86.100", range.ip_addresses[99]);
    assert_eq!("192.168.86.254", range.ip_addresses[253]);
    for (place, address) in range.ip_addresses.iter().enumerate() {
        assert_eq!(format!("192.168.86.{}", place + 1), *address);
    }
}

#[test]
fn generator_counts_end_minus_start() {
    let input = InputIp::parse("10.0.0", 17, 42).unwrap();
    let mut range = IpAddressRange::new();
    range.generate(&input);
    assert_eq!(25, range.ip_count());
    assert_eq!("10.0.0.17", range.ip_addresses[0]);
    assert_eq!("10.0.0.41", range.ip_addresses[24]);
    let input = InputIp::parse("10.0.0", 0, 255).unwrap();
    range.generate(&input);
    assert_eq!(255, range.ip_count());
    assert_eq!("10.0.0.0", range.ip_addresses[0]);
    assert_eq!("10.0.0.254", range.ip_addresses[254]);
}

#[test]
fn generator_yields_nothing_for_an_empty_or_inverted_range() {
    let mut range = IpAddressRange::new();
    range.generate(&InputIp::parse("10.0.0", 5, 5).unwrap());
    assert_eq!(0, range.ip_count());
    range.generate(&InputIp::parse("10.0.0", 200, 3).unwrap());
    assert_eq!(0, range.ip_count());
    range.generate(&InputIp::parse("10.0.0", 0, 0).unwrap());
    assert!(range.ip_addresses.is_empty());
}

#[test]
fn generator_replaces_what_the_list_held() {
    let mut range = IpAddressRange::new();
    assert_eq!(0, range.ip_count());
    range.generate(&InputIp::parse("10.0.0", 1, 4).unwrap());
    assert_eq!(owned(&["10.0.0.1", "10.0.0.2", "10.0.0.3"]), range.ip_addresses);
    range.generate(&InputIp::parse("172.16.5", 254, 255).unwrap());
    assert_eq!(owned(&["172.16.5.254"]), range.ip_addresses);
}

#[test]
fn two_rounds_unite_what_they_found() {
    let input = InputIp::parse("192.168.86", 1, 255).unwrap();
    let mut range = IpAddressRange::new();
    range.generate(&input);
    let mut scan = ScanCoordinator::new(range.ip_addresses, 2).unwrap();
    assert_eq!(ScanStep::Probe, scan.next_step());
    scan.record_round(&owned(&["192.168.86.5"]));
    assert_eq!(ScanStep::Probe, scan.next_step());
    scan.record_round(&owned(&["192.168.86.5", "192.168.86.9"]));
    assert_eq!(ScanStep::Done, scan.next_step());
    assert_eq!(owned(&["192.168.86.5", "192.168.86.9"]), scan.results());
}

#[test]
fn a_scan_in_which_nothing_answers_finds_nothing() {
    let candidates = owned(&["192.168.86.1", "192.168.86.2", "192.168.86.3"]);
    let mut scan = ScanCoordinator::new(candidates, 3).unwrap();
    let mut rounds = 0;
    while scan.next_step() == ScanStep::Probe {
        scan.record_round(&Vec::new());
        rounds += 1;
    }
    assert_eq!(3, rounds);
    assert_eq!(Vec::<String>::new(), scan.results());
}

#[test]
fn zero_rounds_are_refused() {
    let candidates = owned(&["192.168.86.1"]);
    assert_eq!(Some(ScanError::ConfigError), ScanCoordinator::new(candidates, 0).err());
    assert_eq!(Some(ScanError::ConfigError), ScanCoordinator::new(Vec::new(), 0).err());
}

#[test]
fn a_scan_of_nothing_is_done_at_once() {
    let mut scan = ScanCoordinator::new(Vec::new(), 2).unwrap();
    assert_eq!(ScanStep::Done, scan.next_step());
    assert!(scan.addresses().is_empty());
    assert_eq!(Vec::<String>::new(), scan.results());
    scan.record_round(&owned(&["192.168.86.1"]));
    assert_eq!(Vec::<String>::new(), scan.results());
}

#[test]
fn recording_a_round_twice_adds_nothing() {
    let candidates = owned(&["10.0.0.1", "10.0.0.2", "10.0.0.3", "10.0.0.4"]);
    let round = owned(&["10.0.0.4", "10.0.0.2", "10.0.0.4"]);
    let mut scan = ScanCoordinator::new(candidates, 5).unwrap();
    scan.record_round(&round);
    let once = scan.results();
    scan.record_round(&round);
    assert_eq!(once, scan.results());
    assert_eq!(owned(&["10.0.0.2", "10.0.0.4"]), once);
}

#[test]
fn more_rounds_never_lose_an_address() {
    let candidates = owned(&["10.0.0.1", "10.0.0.2", "10.0.0.3", "10.0.0.4"]);
    let mut scan = ScanCoordinator::new(candidates, 3).unwrap();
    scan.record_round(&owned(&["10.0.0.3"]));
    assert_eq!(owned(&["10.0.0.3"]), scan.results());
    scan.record_round(&Vec::new());
    assert_eq!(owned(&["10.0.0.3"]), scan.results());
    scan.record_round(&owned(&["10.0.0.1"]));
    assert_eq!(owned(&["10.0.0.1", "10.0.0.3"]), scan.results());
}

#[test]
fn the_result_is_in_order_whatever_the_order_of_answers() {
    let candidates = owned(&["10.0.0.1", "10.0.0.20", "10.0.0.3", "10.0.0.100"]);
    let expected = owned(&["10.0.0.1", "10.0.0.3", "10.0.0.20", "10.0.0.100"]);
    let mut scan = ScanCoordinator::new(candidates.clone(), 1).unwrap();
    scan.record_round(&owned(&["10.0.0.100", "10.0.0.3", "10.0.0.20", "10.0.0.1"]));
    assert_eq!(expected, scan.results());
    let mut scan = ScanCoordinator::new(candidates, 1).unwrap();
    scan.record_round(&owned(&["10.0.0.20", "10.0.0.1", "10.0.0.100", "10.0.0.3"]));
    assert_eq!(expected, scan.results());
}

#[test]
fn rounds_beyond_those_asked_for_are_not_recorded() {
    let candidates = owned(&["10.0.0.1", "10.0.0.2"]);
    let mut scan = ScanCoordinator::new(candidates, 1).unwrap();
    scan.record_round(&owned(&["10.0.0.2"]));
    assert_eq!(ScanStep::Done, scan.next_step());
    scan.record_round(&owned(&["10.0.0.1"]));
    assert_eq!(owned(&["10.0.0.2"]), scan.results());
}

#[test]
fn answers_from_strangers_are_not_recorded() {
    let candidates = owned(&["10.0.0.1", "10.0.0.2"]);
    let mut scan = ScanCoordinator::new(candidates.clone(), 1).unwrap();
    assert_eq!(&candidates, scan.addresses());
    scan.record_round(&owned(&["10.0.0.7", "10.0.0.2", "localhost"]));
    assert_eq!(owned(&["10.0.0.2"]), scan.results());
}

#[test]
fn the_coordinator_asks_for_each_round_once() {
    let candidates = owned(&["10.0.0.1"]);
    let mut scan = ScanCoordinator::new(candidates, 255).unwrap();
    let mut rounds = 0;
    while scan.next_step() == ScanStep::Probe {
        scan.record_round(&owned(&["10.0.0.1"]));
        rounds += 1;
    }
    assert_eq!(255, rounds);
    assert_eq!(owned(&["10.0.0.1"]), scan.results());
}
