use microdns::beacon::{
    check, serial_reply, virtual_serial, DEFAULT_VIRTUAL_SERIAL, HEADER_GET_SERIAL_NUMBER,
};
use microdns::error::Error;

#[test]
fn beacon_default_serial_frame() {
    let frame = serial_reply(DEFAULT_VIRTUAL_SERIAL);
    assert_eq!(frame.len(), 8);
    assert_eq!(u16::from_le_bytes([frame[0], frame[1]]), 8);
    assert_eq!(u16::from_le_bytes([frame[2], frame[3]]), 0x0010);
    assert_eq!(
        u32::from_le_bytes([frame[4], frame[5], frame[6], frame[7]]),
        258_000_000
    );
}

#[test]
fn beacon_test_default_serial_frame() {
    let frame = serial_reply(DEFAULT_VIRTUAL_SERIAL);
    // length=8, header=0x0010, serial LE
    assert_eq!(frame.len(), 8);
    assert_eq!(u16::from_le_bytes([frame[0], frame[1]]), 8);
    assert_eq!(
        u16::from_le_bytes([frame[2], frame[3]]),
        HEADER_GET_SERIAL_NUMBER
    );
    assert_eq!(
        u32::from_le_bytes([frame[4], frame[5], frame[6], frame[7]]),
        258_000_000
    );
}

#[test]
fn virtual_serial_matches_go() {
    assert_eq!(virtual_serial(0, 0), 258_000_000);
    assert_eq!(virtual_serial(2, 1), 258_002_001);
    assert_eq!(virtual_serial(1, 2), 258_001_002);
}

#[test]
fn serial_frame_is_exact() {
    assert_eq!(serial_reply(0x0403_0201), vec![8, 0, 0x10, 0, 1, 2, 3, 4]);
}

#[test]
fn serials_of_different_stations_differ() {
    assert_ne!(virtual_serial(1, 1), virtual_serial(1, 2));
    assert_ne!(virtual_serial(1, 1), virtual_serial(2, 1));
    assert_ne!(virtual_serial(0, 999), virtual_serial(1, 0));
}

#[test]
fn beacon_needs_a_port_and_a_frame() {
    assert_eq!(check(21105, &serial_reply(1)), Ok(()));
    assert!(matches!(check(0, &serial_reply(1)), Err(Error::Other(_))));
    assert!(matches!(check(21105, &[]), Err(Error::Other(_))));
}
