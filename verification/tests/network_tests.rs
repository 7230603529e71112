use lanqr::errors::LanQrError;
use lanqr::models::Ipv4;
use lanqr::network::{
    candidate_score, discover_ipv4_candidates, is_private_ipv4, AdapterAddress, AdapterInfo,
    PortSearch, PortStep, MAX_PORT_ATTEMPTS, PORT_RANGE_END, PORT_RANGE_START,
};

#[test]
fn private_ranges() {
    assert!(is_private_ipv4(Ipv4(10, 20, 30, 40)));
    assert!(is_private_ipv4(Ipv4(172, 16, 0, 1)));
    assert!(is_private_ipv4(Ipv4(172, 31, 255, 255)));
    assert!(!is_private_ipv4(Ipv4(172, 32, 0, 1)));
    assert!(is_private_ipv4(Ipv4(192, 168, 1, 1)));
    assert!(!is_private_ipv4(Ipv4(192, 169, 1, 1)));
    assert!(!is_private_ipv4(Ipv4(8, 8, 8, 8)));
}

#[test]
fn scores() {
    assert_eq!(candidate_score(Ipv4(192, 168, 1, 5), "wi-fi"), 120);
    assert_eq!(candidate_score(Ipv4(192, 168, 1, 5), "wlan 2"), 120);
    assert_eq!(candidate_score(Ipv4(10, 0, 0, 1), "vethernet (wsl)"), 20);
    assert_eq!(candidate_score(Ipv4(8, 8, 8, 8), "ethernet"), 20);
    assert_eq!(candidate_score(Ipv4(100, 64, 0, 1), "tailscale"), -100);
    assert_eq!(candidate_score(Ipv4(192, 168, 56, 1), "virtualbox host-only"), 0);
}

fn adapter(name: &str, up: bool, addrs: Vec<AdapterAddress>) -> AdapterInfo {
    AdapterInfo { friendly_name: name.to_string(), is_up: up, addresses: addrs }
}

#[test]
fn candidates_are_ranked_and_unique() {
    let adapters = vec![
        adapter(
            "Wi-Fi",
            true,
            vec![
                AdapterAddress::V4(Ipv4(192, 168, 1, 5)),
                AdapterAddress::V6,
                AdapterAddress::V4(Ipv4(127, 0, 0, 1)),
                AdapterAddress::V4(Ipv4(169, 254, 3, 4)),
            ],
        ),
        adapter("vEthernet (WSL)", true, vec![AdapterAddress::V4(Ipv4(172, 20, 1, 1))]),
        adapter("Ethernet 2", false, vec![AdapterAddress::V4(Ipv4(10, 0, 0, 2))]),
        adapter("Ethernet", true, vec![AdapterAddress::V4(Ipv4(192, 168, 1, 5))]),
        adapter("Tailscale", true, vec![AdapterAddress::V4(Ipv4(100, 64, 0, 1))]),
    ];
    let found = discover_ipv4_candidates(&adapters).unwrap();
    let labels: Vec<&str> = found.iter().map(|c| c.label.as_str()).collect();
    assert_eq!(labels, vec!["Ethernet (192.168.1.5)", "vEthernet (WSL) (172.20.1.1)"]);
    assert_eq!(found[0].ip, Ipv4(192, 168, 1, 5));
    assert_eq!(found[1].ip, Ipv4(172, 20, 1, 1));
}

#[test]
fn no_candidates_is_an_error() {
    let adapters = vec![adapter("Loopback Pseudo-Interface 1", true, vec![AdapterAddress::V4(Ipv4(127, 0, 0, 1))])];
    assert_eq!(discover_ipv4_candidates(&adapters).unwrap_err(), LanQrError::NoLanIpv4);
    assert_eq!(discover_ipv4_candidates(&vec![]).unwrap_err(), LanQrError::NoLanIpv4);
}

#[test]
fn port_search_gives_up_after_all_attempts_fail() {
    let mut search = PortSearch::new();
    let mut step = search.start();
    let mut binds = 0;
    loop {
        match step {
            PortStep::Try(port) => {
                assert!((PORT_RANGE_START..=PORT_RANGE_END).contains(&port));
                binds += 1;
                step = search.record(false);
            }
            PortStep::Keep(_) => panic!("no bind worked"),
            PortStep::GiveUp(error) => {
                assert_eq!(error, LanQrError::PortAllocationFailed);
                break;
            }
        }
    }
    assert_eq!(binds, MAX_PORT_ATTEMPTS);
}

#[test]
fn port_search_keeps_the_first_port_that_binds() {
    let mut search = PortSearch::new();
    let mut step = search.start();
    let mut tried = Vec::new();
    loop {
        match step {
            PortStep::Try(port) => {
                tried.push(port);
                step = search.record(tried.len() == 3);
            }
            PortStep::Keep(port) => {
                assert_eq!(tried.len(), 3);
                assert_eq!(port, tried[2]);
                break;
            }
            PortStep::GiveUp(_) => panic!("the third bind worked"),
        }
    }
}
