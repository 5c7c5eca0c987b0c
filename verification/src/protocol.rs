//! Packets of the RB/SC protocol spoken by the LED controller over USB HID.
use vstd::prelude::*;
use vstd::string::*;
use vstd::slice::*;

verus! {

/// Largest number of bytes that one HID output report carries.
pub const MAX_CHUNK_SIZE: usize = 64;

/// Action code: colours for screen synchronisation (SC packet).
pub const ACTION_SYNC_SCREEN: u8 = 128;
/// Action code: ask the device for its information.
pub const ACTION_READ_DEVICE_INFO: u8 = 130;
/// Action code: select an LED effect.
pub const ACTION_SET_LED_EFFECT: u8 = 133;
/// Action code: paint a section in one colour.
pub const ACTION_SET_SECTION_LED: u8 = 134;
/// Action code: set the brightness.
pub const ACTION_SET_BRIGHTNESS: u8 = 135;
/// Action code: set the speed of dynamic effects.
pub const ACTION_SET_DYNAMIC_SPEED: u8 = 138;
/// Action code: turn the light off.
pub const ACTION_TURN_OFF_LIGHT: u8 = 151;
/// Action code: computer rhythm (effect index and volume).
pub const ACTION_SET_COMPUTER_RHYTHM: u8 = 152;

/// First byte of an RB packet (`'R'`).
pub const RB_HEADER_0: u8 = 0x52;
/// Second byte of an RB packet (`'B'`).
pub const RB_HEADER_1: u8 = 0x42;
/// First byte of an SC packet (`'S'`).
pub const SC_HEADER_0: u8 = 0x53;
/// Second byte of an SC packet (`'C'`).
pub const SC_HEADER_1: u8 = 0x43;

/// Order in which an LED device expects the three colour channels.
#[derive(Debug, Clone, Copy, PartialEq, Eq, Structural)]
pub enum WireMap {
    RGB,
    RBG,
    GRB,
    GBR,
    BRG,
    BGR,
}

/// ASCII upper-casing of one character; other characters are left alone.
pub open spec fn ascii_upper(c: char) -> char {
    if 'a' <= c && c <= 'z' {
        ((c as u32) - 32) as char
    } else {
        c
    }
}

/// `s`, upper-cased, is the upper-case name `name`.
pub open spec fn names_channels(s: Seq<char>, name: Seq<char>) -> bool {
    &&& s.len() == name.len()
    &&& forall|i: int| 0 <= i < s.len() ==> ascii_upper(#[trigger] s[i]) == name[i]
}

/// The wire map that a textual name selects; unknown names select RGB.
pub open spec fn wire_map_of(s: Seq<char>) -> WireMap {
    if names_channels(s, seq!['R', 'B', 'G']) {
        WireMap::RBG
    } else if names_channels(s, seq!['G', 'R', 'B']) {
        WireMap::GRB
    } else if names_channels(s, seq!['G', 'B', 'R']) {
        WireMap::GBR
    } else if names_channels(s, seq!['B', 'R', 'G']) {
        WireMap::BRG
    } else if names_channels(s, seq!['B', 'G', 'R']) {
        WireMap::BGR
    } else {
        WireMap::RGB
    }
}

/// The three bytes that a wire map sends for the colour (r, g, b).
pub open spec fn wire_bytes(m: WireMap, r: u8, g: u8, b: u8) -> Seq<u8> {
    match m {
        WireMap::RGB => seq![r, g, b],
        WireMap::RBG => seq![r, b, g],
        WireMap::GRB => seq![g, r, b],
        WireMap::GBR => seq![g, b, r],
        WireMap::BRG => seq![b, r, g],
        WireMap::BGR => seq![b, g, r],
    }
}

/// Whether `c`, upper-cased, is the upper-case ASCII letter `up`.
fn char_is(c: char, up: char) -> (res: bool)
    requires
        'A' <= up && up <= 'Z',
    ensures
        res == (ascii_upper(c) == up),
{
    let low: u32 = (up as u32) + 32;
    let cv: u32 = c as u32;
    cv == up as u32 || cv == low
}

/// Whether the three characters spell the three upper-case letters, ignoring case.
fn spells(c0: char, c1: char, c2: char, u0: char, u1: char, u2: char) -> (res: bool)
    requires
        'A' <= u0 && u0 <= 'Z',
        'A' <= u1 && u1 <= 'Z',
        'A' <= u2 && u2 <= 'Z',
    ensures
        res == names_channels(seq![c0, c1, c2], seq![u0, u1, u2]),
{
    let res = char_is(c0, u0) && char_is(c1, u1) && char_is(c2, u2);
    proof {
        let t = seq![c0, c1, c2];
        let n = seq![u0, u1, u2];
        if res {
            assert forall|i: int| 0 <= i < t.len() implies ascii_upper(#[trigger] t[i]) == n[i] by {}
        } else {
            assert(!(ascii_upper(t[0]) == n[0] && ascii_upper(t[1]) == n[1] && ascii_upper(t[2]) == n[2]));
        }
    }
    res
}

impl WireMap {
    /// Parses a channel order name, ignoring case; unknown names give `RGB`.
    pub fn from_str(s: &str) -> (res: WireMap)
        ensures
            res == wire_map_of(s@),
    {
        let n = s.unicode_len();
        if n != 3 {
            return WireMap::RGB;
        }
        let c0 = s.get_char(0);
        let c1 = s.get_char(1);
        let c2 = s.get_char(2);
        assert(s@ =~= seq![c0, c1, c2]);
        if spells(c0, c1, c2, 'R', 'B', 'G') {
            WireMap::RBG
        } else if spells(c0, c1, c2, 'G', 'R', 'B') {
            WireMap::GRB
        } else if spells(c0, c1, c2, 'G', 'B', 'R') {
            WireMap::GBR
        } else if spells(c0, c1, c2, 'B', 'R', 'G') {
            WireMap::BRG
        } else if spells(c0, c1, c2, 'B', 'G', 'R') {
            WireMap::BGR
        } else {
            WireMap::RGB
        }
    }

    /// The colour (r, g, b) in this device's channel order.
    pub fn apply(&self, r: u8, g: u8, b: u8) -> (res: [u8; 3])
        ensures
            res@ == wire_bytes(*self, r, g, b),
    {
        match self {
            WireMap::RGB => [r, g, b],
            WireMap::RBG => [r, b, g],
            WireMap::GRB => [g, r, b],
            WireMap::GBR => [g, b, r],
            WireMap::BRG => [b, r, g],
            WireMap::BGR => [b, g, r],
        }
    }
}


/// Sum of all bytes, as an unbounded number.
pub open spec fn byte_sum(s: Seq<u8>) -> nat
    decreases s.len(),
{
    if s.len() == 0 {
        0
    } else {
        byte_sum(s.drop_last()) + (s.last() as nat)
    }
}

/// The protocol checksum: the sum of all bytes modulo 256.
pub open spec fn checksum_of(s: Seq<u8>) -> u8 {
    (byte_sum(s) % 256) as u8
}

/// Checksum of `data`: all bytes added with wrap-around.
fn checksum(data: &[u8]) -> (res: u8)
    ensures
        res == checksum_of(data@),
{
    let mut acc: u8 = 0;
    let mut i: usize = 0;
    while i < data.len()
        invariant
            i <= data@.len(),
            acc == byte_sum(data@.take(i as int)) % 256,
        decreases data@.len() - i,
    {
        assert(data@.take(i + 1).drop_last() =~= data@.take(i as int));
        acc = acc.wrapping_add(data[i]);
        i = i + 1;
    }
    assert(data@.take(i as int) =~= data@);
    acc
}

/// The session id that follows `id`: ids run through 1..=255 and start over at 1.
pub open spec fn next_session(id: u8) -> u8 {
    if id >= 255 {
        1
    } else {
        (id + 1) as u8
    }
}

/// Source of the session ids that tag outgoing packets; never hands out 0.
pub struct SessionCounter {
    next: u8,
}

impl View for SessionCounter {
    type V = u8;

    /// The id that the next packet will carry.
    closed spec fn view(&self) -> u8 {
        self.next
    }
}

impl SessionCounter {
    #[verifier::type_invariant]
    spec fn well_formed(self) -> bool {
        1 <= self.next
    }

    /// A counter whose first id is 1.
    pub fn new() -> (res: SessionCounter)
        ensures
            res@ == 1,
    {
        SessionCounter { next: 1 }
    }

    /// The id for the next packet; the counter moves on to its successor.
    pub fn next_session_id(&mut self) -> (id: u8)
        ensures
            id == old(self)@,
            1 <= id,
            final(self)@ == next_session(id),
    {
        proof {
            use_type_invariant(&*self);
        }
        let id = self.next;
        if id >= 255 {
            self.next = 1;
        } else {
            self.next = id + 1;
        }
        id
    }
}

/// Header of an RB packet before its checksum: "RB", length, session, action, payload.
pub open spec fn rb_body(action: u8, payload: Seq<u8>, sid: u8) -> Seq<u8> {
    seq![RB_HEADER_0, RB_HEADER_1, ((payload.len() + 6) % 256) as u8, sid, action] + payload
}

/// A whole RB packet: its body followed by the body's checksum.
pub open spec fn rb_packet(action: u8, payload: Seq<u8>, sid: u8) -> Seq<u8> {
    rb_body(action, payload, sid).push(checksum_of(rb_body(action, payload, sid)))
}

/// Builds an RB packet for `action`, tagged with the counter's next session id.
fn build_rb_packet(counter: &mut SessionCounter, action: u8, payload: &[u8]) -> (res: Vec<u8>)
    requires
        payload@.len() + 6 <= usize::MAX,
    ensures
        res@ == rb_packet(action, payload@, old(counter)@),
        final(counter)@ == next_session(old(counter)@),
{
    let sid = counter.next_session_id();
    let total_len = 2 + 1 + 1 + 1 + payload.len() + 1;
    let mut packet: Vec<u8> = Vec::with_capacity(total_len);
    packet.push(RB_HEADER_0);
    packet.push(RB_HEADER_1);
    packet.push((total_len % 256) as u8);
    packet.push(sid);
    packet.push(action);
    let mut i: usize = 0;
    while i < payload.len()
        invariant
            i <= payload@.len(),
            packet@ =~= seq![RB_HEADER_0, RB_HEADER_1, (total_len % 256) as u8, sid, action]
                + payload@.take(i as int),
        decreases payload@.len() - i,
    {
        packet.push(payload[i]);
        i = i + 1;
    }
    assert(payload@.take(i as int) =~= payload@);
    let chk = checksum(packet.as_slice());
    packet.push(chk);
    packet
}

/// Request for the device information (READ_DEVICE_INFO, no payload).
pub fn get_device_info(counter: &mut SessionCounter) -> (res: Vec<u8>)
    ensures
        res@ == rb_packet(ACTION_READ_DEVICE_INFO, seq![], old(counter)@),
        final(counter)@ == next_session(old(counter)@),
{
    let empty: [u8; 0] = [];
    let r = build_rb_packet(counter, ACTION_READ_DEVICE_INFO, &empty);
    assert(empty@ =~= Seq::<u8>::empty());
    r
}

/// Body of an SC packet before its checksum: "SC", big-endian length, session, action, colours.
pub open spec fn sc_body(colors: Seq<u8>, sid: u8) -> Seq<u8> {
    let total = colors.len() + 7;
    seq![SC_HEADER_0, SC_HEADER_1, ((total / 256) % 256) as u8, (total % 256) as u8, sid, ACTION_SYNC_SCREEN]
        + colors
}

/// A whole SC packet: its body followed by the body's checksum.
pub open spec fn sc_packet(colors: Seq<u8>, sid: u8) -> Seq<u8> {
    sc_body(colors, sid).push(checksum_of(sc_body(colors, sid)))
}

/// Screen-synchronisation packet carrying the LED colour bytes.
pub fn set_sync_screen(counter: &mut SessionCounter, colors: &[u8]) -> (res: Vec<u8>)
    requires
        colors@.len() + 7 <= usize::MAX,
    ensures
        res@ == sc_packet(colors@, old(counter)@),
        final(counter)@ == next_session(old(counter)@),
{
    let sid = counter.next_session_id();
    let total_len = 7 + colors.len();
    let mut packet: Vec<u8> = Vec::with_capacity(total_len);
    packet.push(SC_HEADER_0);
    packet.push(SC_HEADER_1);
    packet.push(((total_len / 256) % 256) as u8);
    packet.push((total_len % 256) as u8);
    packet.push(sid);
    packet.push(ACTION_SYNC_SCREEN);
    let ghost head = packet@;
    let mut i: usize = 0;
    while i < colors.len()
        invariant
            i <= colors@.len(),
            packet@ =~= head + colors@.take(i as int),
        decreases colors@.len() - i,
    {
        packet.push(colors[i]);
        i = i + 1;
    }
    assert(colors@.take(i as int) =~= colors@);
    assert(packet@ =~= sc_body(colors@, sid));
    let chk = checksum(packet.as_slice());
    packet.push(chk);
    packet
}


/// LED effect selection (SET_LED_EFFECT): effect type (2 dynamic, 3 music) and effect index.
pub fn set_led_effect(counter: &mut SessionCounter, effect_type: u8, effect_index: u8) -> (res: Vec<u8>)
    ensures
        res@ == rb_packet(ACTION_SET_LED_EFFECT, seq![effect_type, effect_index], old(counter)@),
        final(counter)@ == next_session(old(counter)@),
{
    let data: [u8; 2] = [effect_type, effect_index];
    let r = build_rb_packet(counter, ACTION_SET_LED_EFFECT, &data);
    assert(data@ =~= seq![effect_type, effect_index]);
    r
}

/// Payload of a single-colour section: the short form, or the long form naming the lamp count
/// when that count lies strictly between 0 and 254.
pub open spec fn section_payload(r: u8, g: u8, b: u8, lamps_amount: u32) -> Seq<u8> {
    if 0 < lamps_amount && lamps_amount < 254 {
        let la = lamps_amount as u8;
        seq![1, r, g, b, la, (la + 1) as u8, 0, 0, 0, 254]
    } else {
        seq![1, r, g, b, 254]
    }
}

/// Single-colour packet (SET_SECTION_LED).
pub fn set_section_led(counter: &mut SessionCounter, r: u8, g: u8, b: u8, lamps_amount: u32) -> (res: Vec<u8>)
    ensures
        res@ == rb_packet(ACTION_SET_SECTION_LED, section_payload(r, g, b, lamps_amount), old(counter)@),
        final(counter)@ == next_session(old(counter)@),
{
    if lamps_amount > 0 && lamps_amount < 254 {
        let la = lamps_amount as u8;
        let data: [u8; 10] = [1, r, g, b, la, la + 1, 0, 0, 0, 254];
        let res = build_rb_packet(counter, ACTION_SET_SECTION_LED, &data);
        assert(data@ =~= section_payload(r, g, b, lamps_amount));
        res
    } else {
        let data: [u8; 5] = [1, r, g, b, 254];
        let res = build_rb_packet(counter, ACTION_SET_SECTION_LED, &data);
        assert(data@ =~= section_payload(r, g, b, lamps_amount));
        res
    }
}

/// Brightness as sent: never below 5.
pub open spec fn brightness_level(val: u8) -> u8 {
    if val < 5 {
        5
    } else {
        val
    }
}

/// Brightness packet (SET_BRIGHTNESS); values below 5 are raised to 5.
pub fn set_brightness(counter: &mut SessionCounter, val: u8) -> (res: Vec<u8>)
    ensures
        res@ == rb_packet(ACTION_SET_BRIGHTNESS, seq![brightness_level(val)], old(counter)@),
        final(counter)@ == next_session(old(counter)@),
{
    let level: u8 = if val < 5 { 5 } else { val };
    let data: [u8; 1] = [level];
    let res = build_rb_packet(counter, ACTION_SET_BRIGHTNESS, &data);
    assert(data@ =~= seq![brightness_level(val)]);
    res
}

/// Effect speed as sent: clamped into 5..=100.
pub open spec fn speed_level(speed: u8) -> u8 {
    if speed < 5 {
        5
    } else if speed > 100 {
        100
    } else {
        speed
    }
}

/// Dynamic effect speed packet (SET_DYNAMIC_SPEED); the speed is clamped into 5..=100.
pub fn set_dynamic_speed(counter: &mut SessionCounter, speed: u8) -> (res: Vec<u8>)
    ensures
        res@ == rb_packet(ACTION_SET_DYNAMIC_SPEED, seq![speed_level(speed)], old(counter)@),
        final(counter)@ == next_session(old(counter)@),
{
    let level: u8 = if speed < 5 {
        5
    } else if speed > 100 {
        100
    } else {
        speed
    };
    let data: [u8; 1] = [level];
    let res = build_rb_packet(counter, ACTION_SET_DYNAMIC_SPEED, &data);
    assert(data@ =~= seq![speed_level(speed)]);
    res
}

/// Light-off packet (TURN_OFF_LIGHT, no payload).
pub fn turn_off_light(counter: &mut SessionCounter) -> (res: Vec<u8>)
    ensures
        res@ == rb_packet(ACTION_TURN_OFF_LIGHT, seq![], old(counter)@),
        final(counter)@ == next_session(old(counter)@),
{
    let empty: [u8; 0] = [];
    let r = build_rb_packet(counter, ACTION_TURN_OFF_LIGHT, &empty);
    assert(empty@ =~= Seq::<u8>::empty());
    r
}

/// Volume as sent: never above 100.
pub open spec fn volume_level(volume: u8) -> u8 {
    if volume > 100 {
        100
    } else {
        volume
    }
}

/// Computer rhythm packet (SET_COMPUTER_RHYTHM): effect index and volume capped at 100.
pub fn set_computer_rhythm(counter: &mut SessionCounter, effect_index: u8, volume: u8) -> (res: Vec<u8>)
    ensures
        res@ == rb_packet(ACTION_SET_COMPUTER_RHYTHM, seq![effect_index, volume_level(volume)], old(counter)@),
        final(counter)@ == next_session(old(counter)@),
{
    let v: u8 = if volume > 100 { 100 } else { volume };
    let data: [u8; 2] = [effect_index, v];
    let res = build_rb_packet(counter, ACTION_SET_COMPUTER_RHYTHM, &data);
    assert(data@ =~= seq![effect_index, volume_level(volume)]);
    res
}

/// A packet cut into consecutive pieces of `MAX_CHUNK_SIZE` bytes, the last one possibly shorter;
/// a packet that fits in one piece (the empty packet too) stays whole.
pub open spec fn chunks_of(p: Seq<u8>) -> Seq<Seq<u8>>
    decreases p.len(),
{
    if p.len() <= MAX_CHUNK_SIZE {
        seq![p]
    } else {
        seq![p.take(MAX_CHUNK_SIZE as int)] + chunks_of(p.skip(MAX_CHUNK_SIZE as int))
    }
}

/// The byte contents of a list of byte vectors.
pub open spec fn byte_rows(v: Seq<Vec<u8>>) -> Seq<Seq<u8>> {
    v.map_values(|c: Vec<u8>| c@)
}

/// Splits a packet into HID-sized chunks of at most `MAX_CHUNK_SIZE` bytes.
pub fn chunk_packet(packet: &[u8]) -> (res: Vec<Vec<u8>>)
    ensures
        byte_rows(res@) == chunks_of(packet@),
{
    if packet.len() <= MAX_CHUNK_SIZE {
        let mut one: Vec<Vec<u8>> = Vec::new();
        one.push(slice_to_vec(packet));
        assert(byte_rows(one@) =~= chunks_of(packet@));
        return one;
    }
    let mut out: Vec<Vec<u8>> = Vec::new();
    let mut start: usize = 0;
    assert(packet@.skip(0) =~= packet@);
    assert(byte_rows(out@) + chunks_of(packet@.skip(0)) =~= chunks_of(packet@));
    while packet.len() - start > MAX_CHUNK_SIZE
        invariant
            start <= packet@.len(),
            packet@.len() - start > 0,
            byte_rows(out@) + chunks_of(packet@.skip(start as int)) == chunks_of(packet@),
        decreases packet@.len() - start,
    {
        let piece = slice_to_vec(slice_subrange(packet, start, start + MAX_CHUNK_SIZE));
        let ghost before = byte_rows(out@);
        proof {
            let rest = packet@.skip(start as int);
            assert(rest.take(MAX_CHUNK_SIZE as int) =~= piece@);
            assert(rest.skip(MAX_CHUNK_SIZE as int) =~= packet@.skip(start + MAX_CHUNK_SIZE));
        }
        out.push(piece);
        assert(byte_rows(out@) =~= before.push(piece@));
        start = start + MAX_CHUNK_SIZE;
        proof {
            assert(before + chunks_of(packet@.skip(start - MAX_CHUNK_SIZE)) =~= before.push(piece@)
                + chunks_of(packet@.skip(start as int)));
        }
    }
    let last = slice_to_vec(slice_subrange(packet, start, packet.len()));
    let ghost before = byte_rows(out@);
    out.push(last);
    proof {
        assert(packet@.skip(start as int) =~= last@);
        assert(byte_rows(out@) =~= before.push(last@));
        assert(before + seq![last@] =~= before.push(last@));
    }
    out
}

/// Reply read back from the device: the bytes between its header and its checksum.
#[derive(Debug)]
pub struct RbResponse {
    pub payload: Vec<u8>,
}

/// `data` starts like an RB packet whose length byte it can hold.
pub open spec fn rb_frame(data: Seq<u8>) -> bool {
    &&& data.len() >= 6
    &&& data[0] == RB_HEADER_0
    &&& data[1] == RB_HEADER_1
    &&& data.len() >= data[2]
}

/// The payload that a reply carries, or `None` where `data` is no RB frame.
pub open spec fn response_payload(data: Seq<u8>) -> Option<Seq<u8>> {
    if rb_frame(data) {
        Some(data.subrange(5, data[2] - 1))
    } else {
        None
    }
}

/// Parses a reply: `None` unless `data` is an RB frame; otherwise the payload up to the checksum
/// that the length byte places. Callers must not pass an RB frame whose length byte is below 6
/// (such a byte leaves no room for header and checksum).
pub fn parse_response(data: &[u8]) -> (res: Option<RbResponse>)
    requires
        rb_frame(data@) ==> data@[2] >= 6,
    ensures
        res is Some <==> response_payload(data@) is Some,
        res matches Some(r) ==> Some(r.payload@) == response_payload(data@),
{
    if data.len() < 6 || data[0] != RB_HEADER_0 || data[1] != RB_HEADER_1 {
        return None;
    }
    let total_len = data[2] as usize;
    if data.len() < total_len {
        return None;
    }
    let payload = slice_to_vec(slice_subrange(data, 5, total_len - 1));
    Some(RbResponse { payload })
}

} // verus!
