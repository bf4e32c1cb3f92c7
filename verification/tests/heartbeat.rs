use std::time::Duration;

use micromouse::comm::heartbeat_channel::HeartbeatWifiChannelConfig;

#[test]
fn heartbeat_config_refuses_a_response_window_longer_than_the_interval() {
    let c = HeartbeatWifiChannelConfig::new(
        Duration::from_millis(100),
        Duration::from_millis(200),
        "ALIVE".to_owned(),
        "CONFIRM-ALIVE".to_owned(),
        b'$',
        64,
    );
    assert!(c.is_none());
}

#[test]
fn heartbeat_config_accepts_equal_intervals() {
    let c = HeartbeatWifiChannelConfig::new(
        Duration::from_millis(200),
        Duration::from_micros(200_900),
        "PING".to_owned(),
        "PONG".to_owned(),
        b'#',
        8,
    )
    .expect("whole milliseconds are equal");
    assert_eq!(c.send_interval, Duration::from_millis(200));
    assert_eq!(c.valid_response_interval, Duration::from_micros(200_900));
    assert_eq!(c.msg_to, "PING");
    assert_eq!(c.expected_response, "PONG");
    assert_eq!(c.delim, b'#');
    assert_eq!(c.buffer_size, 8);
}

#[test]
fn heartbeat_config_default() {
    let c = HeartbeatWifiChannelConfig::default();
    assert_eq!(c.send_interval, Duration::from_millis(1000));
    assert_eq!(c.valid_response_interval, Duration::from_millis(200));
    assert_eq!(c.msg_to, "ALIVE");
    assert_eq!(c.expected_response, "CONFIRM-ALIVE");
    assert_eq!(c.delim, b'$');
    assert_eq!(c.buffer_size, 64);
}
