//! Properties that hold across the packet builders, the chunker and the reply parser.
use vstd::prelude::*;
use crate::protocol::{
    ascii_upper, checksum_of, names_channels, wire_bytes, wire_map_of, WireMap, chunks_of, next_session, rb_body, rb_frame, rb_packet, response_payload, sc_body,
    sc_packet, MAX_CHUNK_SIZE, section_payload, brightness_level, speed_level, volume_level, byte_sum,
};

verus! {

/// An RB packet is six bytes longer than its payload, its length byte states that length
/// (for payloads of at most 249 bytes), and its last byte is the checksum of all bytes before it.
pub proof fn lemma_rb_packet_layout(action: u8, payload: Seq<u8>, sid: u8)
    requires
        payload.len() <= 249,
    ensures
        rb_packet(action, payload, sid).len() == payload.len() + 6,
        rb_packet(action, payload, sid)[0] == 0x52,
        rb_packet(action, payload, sid)[1] == 0x42,
        rb_packet(action, payload, sid)[2] == payload.len() + 6,
        rb_packet(action, payload, sid).subrange(5, payload.len() + 5int) == payload,
        rb_packet(action, payload, sid)[3] == sid,
        rb_packet(action, payload, sid)[4] == action,
        rb_packet(action, payload, sid).last() == checksum_of(rb_packet(action, payload, sid).drop_last()),
{
    assert(rb_packet(action, payload, sid).drop_last() =~= rb_body(action, payload, sid));
    assert(rb_packet(action, payload, sid).subrange(5, payload.len() + 5int) =~= payload);
}

/// An SC packet is seven bytes longer than its colours, bytes 2 and 3 give that length in
/// big-endian order modulo 65536, and its last byte is the checksum of all bytes before it.
pub proof fn lemma_sc_packet_layout(colors: Seq<u8>, sid: u8)
    ensures
        sc_packet(colors, sid).len() == colors.len() + 7,
        sc_packet(colors, sid)[0] == 0x53,
        sc_packet(colors, sid)[1] == 0x43,
        sc_packet(colors, sid)[5] == 128,
        sc_packet(colors, sid)[2] * 256 + sc_packet(colors, sid)[3] == (colors.len() + 7) % 65536,
        sc_packet(colors, sid)[4] == sid,
        sc_packet(colors, sid).subrange(6, colors.len() + 6int) == colors,
        sc_packet(colors, sid).last() == checksum_of(sc_packet(colors, sid).drop_last()),
{
    let t = colors.len() + 7;
    assert(sc_packet(colors, sid).drop_last() =~= sc_body(colors, sid));
    assert(sc_packet(colors, sid).subrange(6, colors.len() + 6int) =~= colors);
    assert(((t / 256) % 256) * 256 + t % 256 == t % 65536) by (nonlinear_arith)
        requires t >= 0;
}

/// Reading back an RB packet gives its payload: the parser accepts every packet built with a
/// payload of at most 249 bytes and returns exactly that payload.
pub proof fn lemma_reply_of_rb_packet(action: u8, payload: Seq<u8>, sid: u8)
    requires
        payload.len() <= 249,
    ensures
        rb_frame(rb_packet(action, payload, sid)),
        rb_packet(action, payload, sid)[2] >= 6,
        response_payload(rb_packet(action, payload, sid)) == Some(payload),
{
    let p = rb_packet(action, payload, sid);
    assert(p.subrange(5, p[2] - 1) =~= payload);
}

/// Pieces of a chunked packet: their concatenation is the packet, each holds at most
/// `MAX_CHUNK_SIZE` bytes, every piece but the last holds exactly that many, and there is
/// one piece for a packet that fits in one, otherwise one per started `MAX_CHUNK_SIZE` bytes.
pub proof fn lemma_chunks(p: Seq<u8>)
    ensures
        chunks_of(p).flatten() == p,
        chunks_of(p).len() == if p.len() <= MAX_CHUNK_SIZE { 1 } else { (p.len() + 63) / 64 },
        forall|i: int| 0 <= i < chunks_of(p).len() ==> #[trigger] chunks_of(p)[i].len() <= MAX_CHUNK_SIZE,
        forall|i: int| 0 <= i < chunks_of(p).len() - 1 ==> #[trigger] chunks_of(p)[i].len() == MAX_CHUNK_SIZE,
    decreases p.len(),
{
    if p.len() <= MAX_CHUNK_SIZE {
        chunks_of(p).lemma_flatten_one_element();
    } else {
        let rest = p.skip(MAX_CHUNK_SIZE as int);
        lemma_chunks(rest);
        let c = chunks_of(p);
        assert(c.drop_first() =~= chunks_of(rest));
        assert(c.flatten() == c.first() + chunks_of(rest).flatten());
        assert(p.take(64) + rest =~= p);
        assert forall|i: int| 0 <= i < c.len() implies #[trigger] c[i].len() <= MAX_CHUNK_SIZE by {
            if i > 0 {
                assert(c[i] == chunks_of(rest)[i - 1]);
            }
        }
        assert forall|i: int| 0 <= i < c.len() - 1 implies #[trigger] c[i].len() == MAX_CHUNK_SIZE by {
            if i > 0 {
                assert(c[i] == chunks_of(rest)[i - 1]);
            }
        }
    }
}

/// The id reached from `id` after `n` steps of the session counter.
pub open spec fn session_after(id: u8, n: nat) -> u8
    decreases n,
{
    if n == 0 {
        id
    } else {
        next_session(session_after(id, (n - 1) as nat))
    }
}

/// Session ids run through 1..=255 in order: from any valid id, `n` steps move it `n` places
/// forward modulo 255, so ids are never 0 and come back after exactly 255 packets.
pub proof fn lemma_session_cycle(id: u8, n: nat)
    requires
        1 <= id,
    ensures
        session_after(id, n) == ((id - 1 + n) % 255) + 1,
        session_after(id, n) != 0,
        session_after(id, 255) == id,
    decreases n,
{
    lemma_session_steps(id, n);
    lemma_session_steps(id, 255);
}

proof fn lemma_session_steps(id: u8, n: nat)
    requires
        1 <= id,
    ensures
        session_after(id, n) == ((id - 1 + n) % 255) + 1,
    decreases n,
{
    if n > 0 {
        lemma_session_steps(id, (n - 1) as nat);
    }
}

/// A wire map only reorders the channels: the three bytes it sends are r, g and b, each once.
pub proof fn lemma_wire_bytes_permute(m: WireMap, r: u8, g: u8, b: u8)
    ensures
        wire_bytes(m, r, g, b).len() == 3,
        wire_bytes(m, r, g, b).to_multiset() == seq![r, g, b].to_multiset(),
{
    broadcast use vstd::seq_lib::group_to_multiset_ensures;

    let w = wire_bytes(m, r, g, b);
    let rgb = seq![r, g, b];
    assert(w.to_multiset() =~= rgb.to_multiset()) by {
        assert(rgb =~= seq![r].push(g).push(b));
        assert(seq![r] =~= Seq::<u8>::empty().push(r));
        match m {
            WireMap::RGB => {},
            WireMap::RBG => { assert(w =~= seq![r].push(b).push(g)); },
            WireMap::GRB => { assert(w =~= Seq::<u8>::empty().push(g).push(r).push(b)); },
            WireMap::GBR => { assert(w =~= Seq::<u8>::empty().push(g).push(b).push(r)); },
            WireMap::BRG => { assert(w =~= Seq::<u8>::empty().push(b).push(r).push(g)); },
            WireMap::BGR => { assert(w =~= Seq::<u8>::empty().push(b).push(g).push(r)); },
        }
    }
}

/// Channel-order names are read without regard to case: two names that agree once
/// upper-cased select the same wire map.
pub proof fn lemma_wire_map_ignores_case(s1: Seq<char>, s2: Seq<char>)
    requires
        s1.map_values(|c: char| ascii_upper(c)) == s2.map_values(|c: char| ascii_upper(c)),
    ensures
        wire_map_of(s1) == wire_map_of(s2),
{
    let u1 = s1.map_values(|c: char| ascii_upper(c));
    let u2 = s2.map_values(|c: char| ascii_upper(c));
    assert(s1.len() == u1.len() && s2.len() == u2.len());
    assert forall|name: Seq<char>| names_channels(s1, name) <==> names_channels(s2, name) by {
        if names_channels(s1, name) {
            assert forall|i: int| 0 <= i < s2.len() implies ascii_upper(#[trigger] s2[i]) == name[i] by {
                assert(u1[i] == u2[i]);
            }
        }
        if names_channels(s2, name) {
            assert forall|i: int| 0 <= i < s1.len() implies ascii_upper(#[trigger] s1[i]) == name[i] by {
                assert(u1[i] == u2[i]);
            }
        }
    }
}

/// The checksum is the wrapping byte sum: 0 for no bytes, and appending a byte adds it
/// modulo 256.
pub proof fn lemma_checksum_steps(s: Seq<u8>, x: u8)
    ensures
        checksum_of(Seq::<u8>::empty()) == 0,
        checksum_of(s.push(x)) == (checksum_of(s) + x) % 256,
{
    assert(s.push(x).drop_last() =~= s);
    assert(byte_sum(s.push(x)) == byte_sum(s) + x);
    let a = byte_sum(s) as int;
    assert((a + x) % 256 == ((a % 256) + x) % 256) by (nonlinear_arith);
}

/// A reply is read by its length byte, whatever follows it in the read buffer: a built RB
/// packet (payload of at most 249 bytes) followed by any bytes parses to its payload.
pub proof fn lemma_reply_with_trailing_bytes(action: u8, payload: Seq<u8>, sid: u8, rest: Seq<u8>)
    requires
        payload.len() <= 249,
    ensures
        rb_frame(rb_packet(action, payload, sid) + rest),
        (rb_packet(action, payload, sid) + rest)[2] >= 6,
        response_payload(rb_packet(action, payload, sid) + rest) == Some(payload),
{
    let p = rb_packet(action, payload, sid);
    let d = p + rest;
    assert(d[0] == p[0] && d[1] == p[1] && d[2] == p[2]);
    assert(d.subrange(5, d[2] - 1) =~= payload);
}

/// The section payload starts with 1, carries red, green and blue at positions 1, 2 and 3,
/// and ends with 254; the long form carries the lamp count and its successor at 4 and 5.
pub proof fn lemma_section_payload_channels(r: u8, g: u8, b: u8, lamps_amount: u32)
    ensures
        section_payload(r, g, b, lamps_amount)[0] == 1,
        section_payload(r, g, b, lamps_amount).subrange(1, 4) == seq![r, g, b],
        section_payload(r, g, b, lamps_amount).last() == 254,
        0 < lamps_amount < 254 ==> section_payload(r, g, b, lamps_amount).len() == 10
            && section_payload(r, g, b, lamps_amount)[4] == lamps_amount
            && section_payload(r, g, b, lamps_amount)[5] == lamps_amount + 1,
        !(0 < lamps_amount < 254) ==> section_payload(r, g, b, lamps_amount).len() == 5,
{
    assert(section_payload(r, g, b, lamps_amount).subrange(1, 4) =~= seq![r, g, b]);
}

/// Brightness sent is the requested value, raised to 5 when below; speed is the requested
/// value clamped into 5..=100; volume is the requested value capped at 100.
pub proof fn lemma_levels(v: u8)
    ensures
        brightness_level(v) >= 5,
        v >= 5 ==> brightness_level(v) == v,
        v < 5 ==> brightness_level(v) == 5,
        5 <= speed_level(v) <= 100,
        5 <= v <= 100 ==> speed_level(v) == v,
        v < 5 ==> speed_level(v) == 5,
        v > 100 ==> speed_level(v) == 100,
        volume_level(v) <= 100,
        v <= 100 ==> volume_level(v) == v,
        v > 100 ==> volume_level(v) == 100,
{
}

/// The colour value that a channel letter names.
pub open spec fn channel_named(c: char, r: u8, g: u8, b: u8) -> u8 {
    if c == 'R' {
        r
    } else if c == 'G' {
        g
    } else {
        b
    }
}

/// A channel-order name says what each sent byte is: for each of the six orders, byte i of the
/// colour as sent is the channel that letter i of the name names.
pub proof fn lemma_wire_order_follows_name(name: Seq<char>, r: u8, g: u8, b: u8)
    requires
        name == seq!['R', 'G', 'B'] || name == seq!['R', 'B', 'G'] || name == seq!['G', 'R', 'B']
            || name == seq!['G', 'B', 'R'] || name == seq!['B', 'R', 'G'] || name == seq!['B', 'G', 'R'],
    ensures
        wire_bytes(wire_map_of(name), r, g, b).len() == 3,
        forall|i: int| 0 <= i < 3 ==> #[trigger] wire_bytes(wire_map_of(name), r, g, b)[i] == channel_named(name[i], r, g, b),
{
    let rbg = seq!['R', 'B', 'G'];
    let grb = seq!['G', 'R', 'B'];
    let gbr = seq!['G', 'B', 'R'];
    let brg = seq!['B', 'R', 'G'];
    let bgr = seq!['B', 'G', 'R'];
    assert(names_channels(name, name));
    if name == seq!['R', 'G', 'B'] {
        assert(!names_channels(name, rbg) && !names_channels(name, grb) && !names_channels(name, gbr)
            && !names_channels(name, brg) && !names_channels(name, bgr)) by {
            assert(ascii_upper(name[1]) == 'G');
            assert(ascii_upper(name[0]) == 'R');
        }
    } else if name == grb {
        assert(!names_channels(name, rbg)) by { assert(ascii_upper(name[0]) == 'G'); }
    } else if name == gbr {
        assert(!names_channels(name, rbg) && !names_channels(name, grb)) by {
            assert(ascii_upper(name[0]) == 'G');
            assert(ascii_upper(name[1]) == 'B');
        }
    } else if name == brg {
        assert(!names_channels(name, rbg) && !names_channels(name, grb) && !names_channels(name, gbr)) by {
            assert(ascii_upper(name[0]) == 'B');
        }
    } else if name == bgr {
        assert(!names_channels(name, rbg) && !names_channels(name, grb) && !names_channels(name, gbr)
            && !names_channels(name, brg)) by {
            assert(ascii_upper(name[0]) == 'B');
            assert(ascii_upper(name[1]) == 'G');
        }
    }
}

/// Names are matched letter by letter without regard to ASCII case: a three-letter name whose
/// letters are those of one of the six orders, each in upper or lower case, selects the same
/// order; a name of any other length selects RGB.
pub proof fn lemma_wire_map_lower_case(s: Seq<char>, name: Seq<char>)
    requires
        name == seq!['R', 'G', 'B'] || name == seq!['R', 'B', 'G'] || name == seq!['G', 'R', 'B']
            || name == seq!['G', 'B', 'R'] || name == seq!['B', 'R', 'G'] || name == seq!['B', 'G', 'R'],
        s.len() == 3,
        forall|i: int| 0 <= i < 3 ==> #[trigger] s[i] == name[i] || s[i] as int == name[i] as int + 32,
    ensures
        wire_map_of(s) == wire_map_of(name),
{
    assert(s.map_values(|c: char| ascii_upper(c)) =~= name.map_values(|c: char| ascii_upper(c))) by {
        assert forall|i: int| 0 <= i < 3 implies ascii_upper(#[trigger] s[i]) == ascii_upper(name[i]) by {
            assert('A' <= name[i] && name[i] <= 'Z');
            if s[i] as int == name[i] as int + 32 {
                assert('a' <= s[i] && s[i] <= 'z');
            }
        }
    }
    lemma_wire_map_ignores_case(s, name);
}

/// A name that is not three characters long selects RGB.
pub proof fn lemma_wire_map_other_lengths(s: Seq<char>)
    requires
        s.len() != 3,
    ensures
        wire_map_of(s) == WireMap::RGB,
{
}

} // verus!
