use forge_session::registry::{check_address, ConnectionError, ConnectionRegistry};

#[test]
fn registered_name_routes() {
    let mut reg = ConnectionRegistry::new();
    assert!(reg.get_connection("chain_1").is_none());
    assert_eq!(reg.add_connection("chain_1", "127.0.0.1:28210", 8), Ok(()));
    let c = reg.get_connection("chain_1").unwrap();
    assert_eq!(c.name, "chain_1");
    assert_eq!(c.address, "127.0.0.1:28210");
    assert_eq!(c.get_decimal(), 8);
    assert_eq!(reg.add_connection("chain_2", "localhost:1", 18), Ok(()));
    assert_eq!(reg.get_connection("chain_1").unwrap().get_decimal(), 8);
    assert_eq!(reg.get_connection("chain_2").unwrap().get_decimal(), 18);
    assert!(reg.get_connection("chain_3").is_none());
}

#[test]
fn duplicate_name_is_refused() {
    let mut reg = ConnectionRegistry::new();
    reg.add_connection("chain_1", "127.0.0.1:28210", 8).unwrap();
    assert_eq!(reg.add_connection("chain_1", "127.0.0.1:28211", 16), Err(ConnectionError::AlreadyRegistered));
    assert_eq!(reg.get_connection("chain_1").unwrap().address, "127.0.0.1:28210");
}

#[test]
fn malformed_address_is_refused() {
    let mut reg = ConnectionRegistry::new();
    for a in ["127.0.0.1", ":80", "host:", "host:0", "host:65536", "host:123456", "host:8a", ""] {
        assert_eq!(reg.add_connection("c", a, 8), Err(ConnectionError::MalformedAddress), "{a}");
    }
    assert!(reg.get_connection("c").is_none());
}

#[test]
fn address_check_accepts_host_and_port() {
    assert!(check_address("127.0.0.1:28210"));
    assert!(check_address("h:65535"));
    assert!(check_address("[::1]:1"));
    assert!(!check_address("h:00000"));
}
