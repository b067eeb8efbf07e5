use stream_hub::hub::StreamHub;
use stream_hub::service::Service;

#[test]
fn service_new_carries_the_ports() {
    let s = Service::new(1935, 8080);
    assert_eq!(s.rtmp_cfg.port, 1935);
    assert_eq!(s.hls_cfg.port, 8080);
}

#[test]
fn hls_flag_is_a_pass_through() {
    let mut hub = StreamHub::new();
    assert!(!hub.hls_enabled());
    hub.set_hls_enabled(true);
    assert!(hub.hls_enabled());
    hub.set_hls_enabled(false);
    assert!(!hub.hls_enabled());
}
