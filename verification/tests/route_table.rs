use prefix_proxy::route_table::RouteTable;

#[test]
fn test_register_and_lookup() {
    let mut t = RouteTable::new();
    t.register("/auth", 0);
    t.register("/task", 1);
    assert_eq!(t.prefix_for("/auth/login").as_deref(), Some("/auth"));
    assert_eq!(t.pool_for(&"/auth".to_string()), Some(0));
    assert_eq!(t.pool_for(&"/task".to_string()), Some(1));
}

#[test]
fn test_pool_for_is_exact_key() {
    let mut t = RouteTable::new();
    t.register("/auth", 0);
    // The lookup key is the route name itself, not a prefix of the query.
    assert_eq!(t.pool_for(&"/auth/login".to_string()), None);
    assert_eq!(t.pool_for(&"/aut".to_string()), None);
}

#[test]
fn test_prefix_for_unmatched() {
    let mut t = RouteTable::new();
    t.register("/auth", 0);
    assert_eq!(t.prefix_for("/other"), None);
    assert_eq!(RouteTable::new().prefix_for("/auth"), None);
}

#[test]
fn test_matched_name_always_resolves() {
    let mut t = RouteTable::new();
    t.register("/auth", 7);
    let name = t.prefix_for("/auth/x").unwrap();
    assert_eq!(t.pool_for(&name), Some(7));
}
