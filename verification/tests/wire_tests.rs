use hass_tesla_ble::clock::deadline_after;
use hass_tesla_ble::error::ChannelError;
use hass_tesla_ble::wire::{copy_range, get_be16, get_be32, get_be64, put_be16, put_be32, put_be64};

#[test]
fn integers_are_written_most_significant_byte_first() {
    let mut out = vec![0xee];
    put_be16(&mut out, 0x0102);
    put_be32(&mut out, 0x0304_0506);
    put_be64(&mut out, 0x0708_090a_0b0c_0d0e);
    assert_eq!(out, vec![0xee, 1, 2, 3, 4, 5, 6, 7, 8, 9, 10, 11, 12, 13, 14]);
}

#[test]
fn integers_read_back_as_written() {
    for x in [0u64, 1, 255, 256, 0xffff, 0x1_0000, 0xffff_ffff, 0x1_0000_0000, u64::MAX] {
        let mut out = Vec::new();
        put_be64(&mut out, x);
        assert_eq!(out.len(), 8);
        assert_eq!(get_be64(&out, 0), x);
    }
    for x in [0u32, 1, 0xff00, 0x00ff_0000, u32::MAX] {
        let mut out = vec![0];
        put_be32(&mut out, x);
        assert_eq!(get_be32(&out, 1), x);
    }
    for x in [0u16, 1, 0x00ff, 0xff00, u16::MAX] {
        let mut out = vec![0, 0];
        put_be16(&mut out, x);
        assert_eq!(get_be16(&out, 2), x);
    }
}

#[test]
fn copy_range_takes_the_bytes_between() {
    assert_eq!(copy_range(&[1, 2, 3, 4, 5], 1, 4), vec![2, 3, 4]);
    assert_eq!(copy_range(&[1, 2, 3], 3, 3), Vec::<u8>::new());
}

#[test]
fn deadline_saturates() {
    assert_eq!(deadline_after(10, 5), 15);
    assert_eq!(deadline_after(u64::MAX - 1, 1), u64::MAX);
    assert_eq!(deadline_after(u64::MAX - 1, 2), u64::MAX);
    assert_eq!(deadline_after(u64::MAX, u64::MAX), u64::MAX);
}

#[test]
fn only_a_link_error_is_safe_to_retry() {
    let all = [
        ChannelError::MalformedMessage,
        ChannelError::AuthenticationFailed,
        ChannelError::ReplayRejected,
        ChannelError::HandshakeTimeout,
        ChannelError::LinkError,
        ChannelError::Timeout,
        ChannelError::SessionExpired,
        ChannelError::NotAuthorized,
        ChannelError::UnexpectedState,
        ChannelError::KeyReused,
        ChannelError::Exhausted,
        ChannelError::UnknownVehicle,
        ChannelError::DuplicateVehicle,
        ChannelError::UnmatchedReply,
    ];
    for e in all {
        assert_eq!(e.retry_is_safe(), e == ChannelError::LinkError);
        assert_eq!(
            e.invalidates_session(),
            e == ChannelError::AuthenticationFailed || e == ChannelError::ReplayRejected
        );
    }
}
