use tradingsim::settings::Metadata;

#[test]
fn empty_config_yields_defaults() {
    let m = Metadata::default();
    assert_eq!(m.socket_addr, "[::1]:8810");
    assert_eq!(m.physics_tick_ms, 100);
}

#[test]
fn set_socket_addr_takes_effect() {
    let mut m = Metadata::default();
    assert_eq!(m.set_socket_addr("[::]:9000"), "[::]:9000");
    assert_eq!(m.socket_addr, "[::]:9000");
}

#[test]
fn set_physics_tick_ms_takes_effect() {
    let mut m = Metadata::default();
    m.set_physics_tick_ms(200);
    assert_eq!(m.physics_tick_ms, 200);
    m.set_physics_tick_ms(-5);
    assert_eq!(m.physics_tick_ms, 1);
}
