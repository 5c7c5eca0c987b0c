use ledsync::protocol::{
    chunk_packet, get_device_info, parse_response, set_brightness, set_computer_rhythm, set_dynamic_speed,
    set_led_effect, set_section_led, set_sync_screen, turn_off_light, SessionCounter, WireMap, MAX_CHUNK_SIZE,
};

#[test]
fn wire_map_from_str_reads_names_in_any_case() {
    assert_eq!(WireMap::from_str("RGB"), WireMap::RGB);
    assert_eq!(WireMap::from_str("rbg"), WireMap::RBG);
    assert_eq!(WireMap::from_str("Grb"), WireMap::GRB);
    assert_eq!(WireMap::from_str("gbR"), WireMap::GBR);
    assert_eq!(WireMap::from_str("BRG"), WireMap::BRG);
    assert_eq!(WireMap::from_str("bgr"), WireMap::BGR);
}

#[test]
fn wire_map_from_str_defaults_to_rgb() {
    assert_eq!(WireMap::from_str(""), WireMap::RGB);
    assert_eq!(WireMap::from_str("BG"), WireMap::RGB);
    assert_eq!(WireMap::from_str("BGRX"), WireMap::RGB);
    assert_eq!(WireMap::from_str(" bgr"), WireMap::RGB);
    assert_eq!(WireMap::from_str("xyz"), WireMap::RGB);
    assert_eq!(WireMap::from_str("ßgr"), WireMap::RGB);
}

#[test]
fn wire_map_apply_orders_channels() {
    assert_eq!(WireMap::RGB.apply(1, 2, 3), [1, 2, 3]);
    assert_eq!(WireMap::RBG.apply(1, 2, 3), [1, 3, 2]);
    assert_eq!(WireMap::GRB.apply(1, 2, 3), [2, 1, 3]);
    assert_eq!(WireMap::GBR.apply(1, 2, 3), [2, 3, 1]);
    assert_eq!(WireMap::BRG.apply(1, 2, 3), [3, 1, 2]);
    assert_eq!(WireMap::BGR.apply(1, 2, 3), [3, 2, 1]);
}

#[test]
fn wire_map_apply_is_a_permutation() {
    for m in [WireMap::RGB, WireMap::RBG, WireMap::GRB, WireMap::GBR, WireMap::BRG, WireMap::BGR] {
        let mut out = m.apply(10, 20, 30);
        out.sort();
        assert_eq!(out, [10, 20, 30]);
    }
}

#[test]
fn device_info_packet_bytes() {
    let mut c = SessionCounter::new();
    assert_eq!(get_device_info(&mut c), vec![82, 66, 6, 1, 130, 29]);
}

#[test]
fn session_ids_advance_and_skip_zero() {
    let mut c = SessionCounter::new();
    for expected in 1..=255u32 {
        assert_eq!(c.next_session_id() as u32, expected);
    }
    assert_eq!(c.next_session_id(), 1);
    assert_eq!(c.next_session_id(), 2);
}

#[test]
fn session_ids_repeat_after_255_packets() {
    let mut c = SessionCounter::new();
    let first: Vec<u8> = (0..255).map(|_| c.next_session_id()).collect();
    let second: Vec<u8> = (0..255).map(|_| c.next_session_id()).collect();
    assert_eq!(first, second);
    assert!(!first.contains(&0));
}

#[test]
fn packets_carry_consecutive_session_ids() {
    let mut c = SessionCounter::new();
    let a = turn_off_light(&mut c);
    let b = turn_off_light(&mut c);
    assert_eq!(a[3], 1);
    assert_eq!(b[3], 2);
}

#[test]
fn device_info_with_last_session_id() {
    let mut c = SessionCounter::new();
    for _ in 0..254 {
        c.next_session_id();
    }
    assert_eq!(get_device_info(&mut c), vec![82, 66, 6, 255, 130, 27]);
    assert_eq!(get_device_info(&mut c)[3], 1);
}

#[test]
fn led_effect_packet_bytes() {
    let mut c = SessionCounter::new();
    assert_eq!(set_led_effect(&mut c, 2, 7), vec![82, 66, 8, 1, 133, 2, 7, 43]);
}

#[test]
fn section_led_long_form_names_lamp_count() {
    let mut c = SessionCounter::new();
    assert_eq!(
        set_section_led(&mut c, 10, 20, 30, 60),
        vec![82, 66, 16, 1, 134, 1, 10, 20, 30, 60, 61, 0, 0, 0, 254, 223]
    );
}

#[test]
fn section_led_short_form_at_the_edges() {
    let mut c = SessionCounter::new();
    assert_eq!(set_section_led(&mut c, 10, 20, 30, 0), vec![82, 66, 11, 1, 134, 1, 10, 20, 30, 254, 97]);
    let mut c = SessionCounter::new();
    assert_eq!(set_section_led(&mut c, 10, 20, 30, 254), vec![82, 66, 11, 1, 134, 1, 10, 20, 30, 254, 97]);
    let mut c = SessionCounter::new();
    let p = set_section_led(&mut c, 1, 2, 3, 253);
    assert_eq!(&p[5..15], &[1, 1, 2, 3, 253, 254, 0, 0, 0, 254]);
}

#[test]
fn brightness_is_at_least_five() {
    let mut c = SessionCounter::new();
    assert_eq!(set_brightness(&mut c, 3), vec![82, 66, 7, 1, 135, 5, 40]);
    assert_eq!(set_brightness(&mut c, 200), vec![82, 66, 7, 2, 135, 200, 236]);
}

#[test]
fn dynamic_speed_is_clamped() {
    let mut c = SessionCounter::new();
    assert_eq!(set_dynamic_speed(&mut c, 2), vec![82, 66, 7, 1, 138, 5, 43]);
    let mut c = SessionCounter::new();
    assert_eq!(set_dynamic_speed(&mut c, 150), vec![82, 66, 7, 1, 138, 100, 138]);
    let mut c = SessionCounter::new();
    assert_eq!(set_dynamic_speed(&mut c, 50), vec![82, 66, 7, 1, 138, 50, 88]);
}

#[test]
fn turn_off_packet_bytes() {
    let mut c = SessionCounter::new();
    assert_eq!(turn_off_light(&mut c), vec![82, 66, 6, 1, 151, 50]);
}

#[test]
fn computer_rhythm_volume_is_capped() {
    let mut c = SessionCounter::new();
    assert_eq!(set_computer_rhythm(&mut c, 4, 255), vec![82, 66, 8, 1, 152, 4, 100, 157]);
    let mut c = SessionCounter::new();
    assert_eq!(set_computer_rhythm(&mut c, 4, 42), vec![82, 66, 8, 1, 152, 4, 42, 99]);
}

#[test]
fn sync_screen_packet_bytes() {
    let mut c = SessionCounter::new();
    assert_eq!(set_sync_screen(&mut c, &[1, 2, 3]), vec![83, 67, 0, 10, 1, 128, 1, 2, 3, 39]);
}

#[test]
fn sync_screen_length_is_big_endian() {
    let mut c = SessionCounter::new();
    let p = set_sync_screen(&mut c, &vec![7u8; 1000]);
    assert_eq!(p.len(), 1007);
    assert_eq!(p[2], 3);
    assert_eq!(p[3], 239);
    assert_eq!(p[1006], 97);
}

#[test]
fn checksum_is_the_byte_sum_of_the_rest() {
    let mut c = SessionCounter::new();
    for p in [get_device_info(&mut c), set_led_effect(&mut c, 9, 9), set_sync_screen(&mut c, &[200, 200, 200])] {
        let (body, last) = p.split_at(p.len() - 1);
        let sum = body.iter().fold(0u8, |a, b| a.wrapping_add(*b));
        assert_eq!(sum, last[0]);
    }
}

#[test]
fn chunk_short_packet_stays_whole() {
    assert_eq!(chunk_packet(&[1, 2, 3]), vec![vec![1, 2, 3]]);
    assert_eq!(chunk_packet(&[]), vec![Vec::<u8>::new()]);
    let exact = vec![5u8; 64];
    assert_eq!(chunk_packet(&exact), vec![exact.clone()]);
}

#[test]
fn chunk_long_packet_in_sixty_four_byte_pieces() {
    let p: Vec<u8> = (0..150u32).map(|i| i as u8).collect();
    let chunks = chunk_packet(&p);
    assert_eq!(chunks.len(), 3);
    assert_eq!(chunks[0].len(), MAX_CHUNK_SIZE);
    assert_eq!(chunks[1].len(), MAX_CHUNK_SIZE);
    assert_eq!(chunks[2].len(), 22);
    assert_eq!(chunks.concat(), p);
    let p2 = vec![1u8; 128];
    assert_eq!(chunk_packet(&p2).len(), 2);
    let p3 = vec![1u8; 65];
    assert_eq!(chunk_packet(&p3).len(), 2);
}

#[test]
fn parse_response_reads_back_payload() {
    let mut c = SessionCounter::new();
    let p = set_led_effect(&mut c, 2, 7);
    let r = parse_response(&p).unwrap();
    assert_eq!(r.payload, vec![2, 7]);
    let p = set_section_led(&mut c, 1, 2, 3, 60);
    assert_eq!(parse_response(&p).unwrap().payload, vec![1, 1, 2, 3, 60, 61, 0, 0, 0, 254]);
    let p = turn_off_light(&mut c);
    assert_eq!(parse_response(&p).unwrap().payload, Vec::<u8>::new());
}

#[test]
fn parse_response_ignores_trailing_bytes() {
    let data = [82, 66, 8, 1, 130, 9, 8, 0, 77, 77, 77];
    assert_eq!(parse_response(&data).unwrap().payload, vec![9, 8]);
}

#[test]
fn parse_response_rejects_bad_frames() {
    assert!(parse_response(&[82, 66, 6, 1, 130]).is_none());
    assert!(parse_response(&[83, 67, 6, 1, 130, 0]).is_none());
    assert!(parse_response(&[82, 67, 6, 1, 130, 0]).is_none());
    assert!(parse_response(&[82, 66, 9, 1, 130, 0, 0, 0]).is_none());
    assert!(parse_response(&[]).is_none());
}
