use hass_tesla_ble::error::ChannelError;
use hass_tesla_ble::framer::{count_fragments, fragment, Reassembler};

fn message(len: usize) -> Vec<u8> {
    (0..len).map(|i| (i * 7 + 3) as u8).collect()
}

#[test]
fn fragments_carry_index_and_total() {
    let m: Vec<u8> = (10..20).collect();
    let fragments = fragment(&m, 8).unwrap();
    assert_eq!(
        fragments,
        vec![
            vec![0, 0, 0, 0, 0, 10, 10, 11],
            vec![0, 1, 12, 13, 14, 15, 16, 17],
            vec![0, 2, 18, 19],
        ]
    );
}

#[test]
fn short_and_empty_messages_are_one_fragment() {
    assert_eq!(fragment(&[], 7).unwrap(), vec![vec![0, 0, 0, 0, 0, 0]]);
    assert_eq!(fragment(&[5], 7).unwrap(), vec![vec![0, 0, 0, 0, 0, 1, 5]]);
    assert_eq!(fragment(&[5, 6], 7).unwrap(), vec![vec![0, 0, 0, 0, 0, 2, 5], vec![0, 1, 6]]);
}

#[test]
fn every_fragment_fits_one_write() {
    for max_write in [7usize, 8, 20, 23, 185] {
        for len in [0usize, 1, 5, 17, 18, 19, 200, 1000] {
            let m = message(len);
            let fragments = fragment(&m, max_write).unwrap();
            assert_eq!(fragments.len(), count_fragments(len as u32, max_write));
            for f in &fragments {
                assert!(f.len() <= max_write);
            }
            let carried: usize = fragments
                .iter()
                .enumerate()
                .map(|(i, f)| f.len() - if i == 0 { 6 } else { 2 })
                .sum();
            assert_eq!(carried, len);
        }
    }
}

#[test]
fn fragment_count_follows_the_capacity() {
    assert_eq!(count_fragments(0, 20), 1);
    assert_eq!(count_fragments(14, 20), 1);
    assert_eq!(count_fragments(15, 20), 2);
    assert_eq!(count_fragments(32, 20), 2);
    assert_eq!(count_fragments(33, 20), 3);
}

#[test]
fn unusable_link_is_a_link_error() {
    for max_write in [0usize, 1, 6] {
        assert_eq!(fragment(&[1, 2, 3], max_write), Err(ChannelError::LinkError));
        assert!(matches!(Reassembler::new(max_write, 10), Err(ChannelError::LinkError)));
    }
}

#[test]
fn too_many_fragments_are_refused() {
    // One byte in the first fragment, five in each later one.
    let fits = vec![0u8; 1 + 65535 * 5];
    assert_eq!(fragment(&fits, 7).unwrap().len(), 65536);
    let too_long = vec![0u8; 2 + 65535 * 5];
    assert_eq!(fragment(&too_long, 7), Err(ChannelError::MalformedMessage));
}

#[test]
fn reassembly_in_order_gives_the_message() {
    let m = message(100);
    let fragments = fragment(&m, 20).unwrap();
    let mut buffer = Reassembler::new(20, 50).unwrap();
    let last = fragments.len() - 1;
    for (i, f) in fragments.iter().enumerate() {
        let got = buffer.accept(f, 1).unwrap();
        if i == last {
            assert_eq!(got, Some(m.clone()));
        } else {
            assert_eq!(got, None);
            assert!(!buffer.is_empty());
        }
    }
    assert!(buffer.is_empty());
    assert_eq!(buffer.deadline(), None);
}

#[test]
fn reassembly_in_any_order_gives_the_message() {
    let m = message(61);
    let fragments = fragment(&m, 16).unwrap();
    let n = fragments.len();
    assert_eq!(n, 5);
    let orders: [[usize; 5]; 5] =
        [[4, 3, 2, 1, 0], [1, 0, 3, 2, 4], [2, 4, 0, 1, 3], [3, 1, 4, 2, 0], [0, 2, 4, 1, 3]];
    for order in orders {
        let mut buffer = Reassembler::new(16, 50).unwrap();
        for (k, i) in order.iter().enumerate() {
            let got = buffer.accept(&fragments[*i], 3).unwrap();
            if k + 1 == n {
                assert_eq!(got, Some(m.clone()));
            } else {
                assert_eq!(got, None);
            }
        }
    }
}

#[test]
fn missing_fragment_never_completes() {
    let m = message(61);
    let fragments = fragment(&m, 16).unwrap();
    for missing in 0..fragments.len() {
        let mut buffer = Reassembler::new(16, 50).unwrap();
        for (i, f) in fragments.iter().enumerate() {
            if i != missing {
                assert_eq!(buffer.accept(f, 3), Ok(None));
            }
        }
        assert!(!buffer.is_empty());
    }
}

#[test]
fn stale_buffer_is_dropped() {
    let m = message(30);
    let fragments = fragment(&m, 16).unwrap();
    assert_eq!(fragments.len(), 3);
    let mut buffer = Reassembler::new(16, 10).unwrap();
    assert_eq!(buffer.accept(&fragments[0], 100), Ok(None));
    assert_eq!(buffer.deadline(), Some(110));
    assert_eq!(buffer.accept(&fragments[1], 110), Ok(None));
    assert!(!buffer.expire(110));
    // The last fragment comes too late: what was buffered is gone, and the
    // fragment starts a buffer of its own.
    assert_eq!(buffer.accept(&fragments[2], 111), Ok(None));
    assert_eq!(buffer.deadline(), Some(121));
    assert!(buffer.expire(122));
    assert!(buffer.is_empty());
    // A fresh run completes.
    assert_eq!(buffer.accept(&fragments[2], 200), Ok(None));
    assert_eq!(buffer.accept(&fragments[0], 201), Ok(None));
    assert_eq!(buffer.accept(&fragments[1], 202), Ok(Some(m)));
}

#[test]
fn length_mismatch_is_malformed() {
    // Declares 10 bytes, which makes three fragments on this link, but the
    // last one carries a byte too many.
    let mut buffer = Reassembler::new(8, 10).unwrap();
    assert_eq!(buffer.accept(&[0, 0, 0, 0, 0, 10, 1, 2], 0), Ok(None));
    assert_eq!(buffer.accept(&[0, 1, 3, 4, 5, 6, 7, 8], 0), Ok(None));
    assert_eq!(buffer.accept(&[0, 2, 9, 10, 11], 0), Err(ChannelError::MalformedMessage));
    assert!(buffer.is_empty());
    // And one too few.
    assert_eq!(buffer.accept(&[0, 0, 0, 0, 0, 10, 1, 2], 0), Ok(None));
    assert_eq!(buffer.accept(&[0, 1, 3, 4, 5, 6, 7, 8], 0), Ok(None));
    assert_eq!(buffer.accept(&[0, 2, 9], 0), Err(ChannelError::MalformedMessage));
    assert!(buffer.is_empty());
}

#[test]
fn malformed_fragments_empty_the_buffer() {
    let mut buffer = Reassembler::new(8, 10).unwrap();
    assert_eq!(buffer.accept(&[0], 0), Err(ChannelError::MalformedMessage));
    assert_eq!(buffer.accept(&[0, 0, 0, 0, 0], 0), Err(ChannelError::MalformedMessage));
    // Twice the same index.
    assert_eq!(buffer.accept(&[0, 1, 3, 4], 0), Ok(None));
    assert_eq!(buffer.accept(&[0, 1, 3, 4], 0), Err(ChannelError::MalformedMessage));
    assert!(buffer.is_empty());
    // A message that fits its first fragment is complete at once.
    assert_eq!(buffer.accept(&[0, 0, 0, 0, 0, 2, 1, 2], 0), Ok(Some(vec![1, 2])));
    assert!(buffer.is_empty());
    // An index beyond the declared total, in either order of arrival.
    assert_eq!(buffer.accept(&[0, 0, 0, 0, 0, 10, 1, 2], 0), Ok(None));
    assert_eq!(buffer.accept(&[0, 3, 1], 0), Err(ChannelError::MalformedMessage));
    assert!(buffer.is_empty());
    assert_eq!(buffer.accept(&[0, 3, 1], 0), Ok(None));
    assert_eq!(buffer.accept(&[0, 0, 0, 0, 0, 10, 1, 2], 0), Err(ChannelError::MalformedMessage));
    assert!(buffer.is_empty());
}

#[test]
fn repeated_fragments_do_not_make_up_for_a_missing_one() {
    let m = message(61);
    let fragments = fragment(&m, 16).unwrap();
    let mut buffer = Reassembler::new(16, 5).unwrap();
    // Fragment 3 never arrives; the others come again and again, at any tick.
    let order = [0usize, 1, 1, 2, 4, 0, 4, 2, 1, 0, 2, 4, 4];
    for (k, i) in order.iter().enumerate() {
        let got = buffer.accept(&fragments[*i], 7 * k as u64);
        assert!(!matches!(got, Ok(Some(_))));
    }
}
