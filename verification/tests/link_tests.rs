use ledsync::link::{
    is_target_device, mac_from_reply, output_report, packet_reports, select_device, DeviceCandidate, LinkError,
    PRODUCT_ID, REPORT_LEN, VENDOR_ID,
};
use ledsync::protocol::RbResponse;

fn dev(vendor_id: u16, product_id: u16, usage_page: u16, usage: u16, interface_number: i32) -> DeviceCandidate {
    DeviceCandidate { vendor_id, product_id, usage_page, usage, interface_number }
}

#[test]
fn target_device_is_matched_by_ids() {
    assert!(is_target_device(&dev(0x1A86, 0xFE07, 0, 0, 0)));
    assert!(!is_target_device(&dev(0x1A86, 0xFE08, 0, 0, 0)));
    assert!(!is_target_device(&dev(0x1A87, 0xFE07, 0, 0, 0)));
    assert_eq!((VENDOR_ID, PRODUCT_ID), (0x1A86, 0xFE07));
}

#[test]
fn select_device_none_without_controller() {
    assert_eq!(select_device(&vec![]), None);
    assert_eq!(select_device(&vec![dev(1, 2, 0xFF00, 1, 0)]), None);
}

#[test]
fn select_device_prefers_vendor_page_and_avoids_keyboard() {
    let devs = vec![
        dev(1, 2, 0xFF00, 1, 0),
        dev(VENDOR_ID, PRODUCT_ID, 0x0001, 0x0006, 0),
        dev(VENDOR_ID, PRODUCT_ID, 0x000C, 0x0001, 0),
        dev(VENDOR_ID, PRODUCT_ID, 0xFF00, 0x0001, 2),
        dev(VENDOR_ID, PRODUCT_ID, 0xFF00, 0x0001, 1),
    ];
    assert_eq!(select_device(&devs), Some(3));
}

#[test]
fn select_device_prefers_interface_zero_and_keeps_order_on_ties() {
    let devs = vec![
        dev(VENDOR_ID, PRODUCT_ID, 0xFF00, 1, 1),
        dev(VENDOR_ID, PRODUCT_ID, 0xFF01, 1, 0),
        dev(VENDOR_ID, PRODUCT_ID, 0xFF02, 1, 0),
    ];
    assert_eq!(select_device(&devs), Some(1));
    let only_keyboards = vec![dev(VENDOR_ID, PRODUCT_ID, 1, 6, 3), dev(VENDOR_ID, PRODUCT_ID, 1, 6, 0)];
    assert_eq!(select_device(&only_keyboards), Some(1));
}

#[test]
fn output_report_pads_to_sixty_five_bytes() {
    let r = output_report(&[9, 8, 7]).unwrap();
    assert_eq!(r.len(), REPORT_LEN);
    assert_eq!(&r[..4], &[0, 9, 8, 7]);
    assert!(r[4..].iter().all(|b| *b == 0));
    let full = vec![3u8; 64];
    let r = output_report(&full).unwrap();
    assert_eq!(r[0], 0);
    assert_eq!(&r[1..], &full[..]);
}

#[test]
fn output_report_refuses_oversized_chunk() {
    assert_eq!(output_report(&vec![1u8; 65]), Err(LinkError::ChunkTooLarge(65)));
}

#[test]
fn packet_reports_one_per_chunk() {
    let p: Vec<u8> = (0..150u32).map(|i| (i + 1) as u8).collect();
    let reports = packet_reports(&p);
    assert_eq!(reports.len(), 3);
    for r in &reports {
        assert_eq!(r.len(), 65);
        assert_eq!(r[0], 0);
    }
    assert_eq!(&reports[0][1..], &p[0..64]);
    assert_eq!(&reports[1][1..], &p[64..128]);
    assert_eq!(&reports[2][1..23], &p[128..150]);
    assert!(reports[2][23..].iter().all(|b| *b == 0));
}

#[test]
fn mac_from_reply_reads_bytes_one_to_six() {
    let reply = Some(RbResponse { payload: vec![0xAA, 1, 2, 3, 4, 5, 6, 0xBB] });
    assert_eq!(mac_from_reply(&reply), Some([1, 2, 3, 4, 5, 6]));
    let exact = Some(RbResponse { payload: vec![0, 10, 20, 30, 40, 50, 60] });
    assert_eq!(mac_from_reply(&exact), Some([10, 20, 30, 40, 50, 60]));
}

#[test]
fn mac_from_reply_none_for_short_or_missing_reply() {
    assert_eq!(mac_from_reply(&Some(RbResponse { payload: vec![1, 2, 3, 4, 5, 6] })), None);
    assert_eq!(mac_from_reply(&None), None);
}
