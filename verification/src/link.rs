//! Decisions of the USB HID link: which device to open, how packets become output reports,
//! and what a device-information reply says.
use vstd::prelude::*;
use crate::protocol::{byte_rows, chunk_packet, chunks_of, RbResponse, MAX_CHUNK_SIZE};

verus! {

/// USB vendor id of the LED controller.
pub const VENDOR_ID: u16 = 0x1A86;
/// USB product id of the LED controller.
pub const PRODUCT_ID: u16 = 0xFE07;
/// Length of one HID output report: a report id byte followed by one chunk.
pub const REPORT_LEN: usize = 65;

/// What the device enumeration tells about one HID interface.
#[derive(Debug, Clone, Copy, PartialEq, Eq, Structural)]
pub struct DeviceCandidate {
    pub vendor_id: u16,
    pub product_id: u16,
    pub usage_page: u16,
    pub usage: u16,
    pub interface_number: i32,
}

/// The interface belongs to the LED controller.
pub open spec fn is_target(c: DeviceCandidate) -> bool {
    c.vendor_id == VENDOR_ID && c.product_id == PRODUCT_ID
}

/// Whether an enumerated interface belongs to the LED controller.
pub fn is_target_device(c: &DeviceCandidate) -> (res: bool)
    ensures
        res == is_target(*c),
{
    c.vendor_id == VENDOR_ID && c.product_id == PRODUCT_ID
}

/// Sort key of an interface; smaller is preferred: keyboard interfaces last, then
/// vendor-defined usage pages first, then interface 0 first.
pub open spec fn priority_of(c: DeviceCandidate) -> (u8, u8, u8) {
    (
        if c.usage_page == 0x0001 && c.usage == 0x0006 { 2u8 } else { 0u8 },
        if c.usage_page >= 0xFF00 { 0u8 } else { 1u8 },
        if c.interface_number == 0 { 0u8 } else { 1u8 },
    )
}

/// Lexicographic order on sort keys.
pub open spec fn key_less(a: (u8, u8, u8), b: (u8, u8, u8)) -> bool {
    a.0 < b.0 || (a.0 == b.0 && (a.1 < b.1 || (a.1 == b.1 && a.2 < b.2)))
}

/// Entry `i` is the interface that a stable sort by key puts first among the targets:
/// no target has a smaller key, and every earlier target has a larger one.
pub open spec fn is_preferred(devs: Seq<DeviceCandidate>, i: int) -> bool {
    &&& 0 <= i < devs.len()
    &&& is_target(devs[i])
    &&& forall|j: int|
        0 <= j < devs.len() && is_target(#[trigger] devs[j]) ==> !key_less(priority_of(devs[j]), priority_of(devs[i]))
    &&& forall|j: int| 0 <= j < i && is_target(#[trigger] devs[j]) ==> key_less(priority_of(devs[i]), priority_of(devs[j]))
}

fn priority(c: &DeviceCandidate) -> (res: (u8, u8, u8))
    ensures
        res == priority_of(*c),
{
    let kbd: u8 = if c.usage_page == 0x0001 && c.usage == 0x0006 { 2 } else { 0 };
    let vendor: u8 = if c.usage_page >= 0xFF00 { 0 } else { 1 };
    let first: u8 = if c.interface_number == 0 { 0 } else { 1 };
    (kbd, vendor, first)
}

fn less(a: (u8, u8, u8), b: (u8, u8, u8)) -> (res: bool)
    ensures
        res == key_less(a, b),
{
    a.0 < b.0 || (a.0 == b.0 && (a.1 < b.1 || (a.1 == b.1 && a.2 < b.2)))
}

/// Picks the interface to open: the first, in enumeration order, of the LED controller's
/// interfaces with the smallest sort key; `None` when the controller is not present.
pub fn select_device(devs: &Vec<DeviceCandidate>) -> (res: Option<usize>)
    ensures
        res matches Some(i) ==> is_preferred(devs@, i as int),
        res is None <==> (forall|j: int| 0 <= j < devs@.len() ==> !is_target(#[trigger] devs@[j])),
{
    let mut best: Option<usize> = None;
    let mut i: usize = 0;
    while i < devs.len()
        invariant
            i <= devs@.len(),
            best matches Some(b) ==> is_preferred(devs@.take(i as int), b as int),
            best is None <==> (forall|j: int| 0 <= j < i ==> !is_target(#[trigger] devs@[j])),
        decreases devs@.len() - i,
    {
        let ghost pre = devs@.take(i as int);
        let ghost post = devs@.take(i + 1);
        assert(forall|j: int| 0 <= j < i ==> pre[j] == devs@[j]);
        assert(forall|j: int| 0 <= j <= i ==> post[j] == devs@[j]);
        let c = &devs[i];
        if is_target_device(c) {
            match best {
                None => {
                    best = Some(i);
                },
                Some(b) => {
                    if less(priority(c), priority(&devs[b])) {
                        best = Some(i);
                    }
                },
            }
        }
        i = i + 1;
    }
    assert(devs@.take(i as int) =~= devs@);
    best
}

/// One output report: report id 0, the chunk, then zeros up to `REPORT_LEN` bytes.
pub open spec fn report_of(chunk: Seq<u8>) -> Seq<u8> {
    seq![0u8] + chunk + Seq::new((MAX_CHUNK_SIZE - chunk.len()) as nat, |k: int| 0u8)
}

/// Why a chunk cannot be sent.
#[derive(Debug, Clone, Copy, PartialEq, Eq, Structural)]
pub enum LinkError {
    /// The chunk holds more bytes than one report carries; the count is given.
    ChunkTooLarge(usize),
}

/// The HID output report that carries one chunk; chunks over `MAX_CHUNK_SIZE` bytes are refused.
pub fn output_report(data: &[u8]) -> (res: Result<Vec<u8>, LinkError>)
    ensures
        res is Err <==> data@.len() > MAX_CHUNK_SIZE,
        res matches Err(e) ==> e == LinkError::ChunkTooLarge(data@.len() as usize),
        res matches Ok(r) ==> r@ == report_of(data@),
{
    if data.len() > MAX_CHUNK_SIZE {
        return Err(LinkError::ChunkTooLarge(data.len()));
    }
    let mut report: Vec<u8> = Vec::with_capacity(REPORT_LEN);
    report.push(0u8);
    let mut i: usize = 0;
    while i < data.len()
        invariant
            i <= data@.len(),
            report@ =~= seq![0u8] + data@.take(i as int),
        decreases data@.len() - i,
    {
        report.push(data[i]);
        i = i + 1;
    }
    assert(data@.take(i as int) =~= data@);
    let ghost head = report@;
    while i < MAX_CHUNK_SIZE
        invariant
            data@.len() <= i <= MAX_CHUNK_SIZE,
            report@ =~= head + Seq::new((i - data@.len()) as nat, |k: int| 0u8),
        decreases MAX_CHUNK_SIZE - i,
    {
        report.push(0u8);
        i = i + 1;
    }
    Ok(report)
}

/// The output reports that carry a packet, one per chunk, in order.
pub fn packet_reports(packet: &[u8]) -> (res: Vec<Vec<u8>>)
    ensures
        byte_rows(res@) == chunks_of(packet@).map_values(|c: Seq<u8>| report_of(c)),
{
    let chunks = chunk_packet(packet);
    proof {
        crate::packet_laws::lemma_chunks(packet@);
        assert forall|k: int| 0 <= k < chunks@.len() implies #[trigger] chunks@[k]@.len() <= MAX_CHUNK_SIZE by {
            assert(byte_rows(chunks@)[k] == chunks@[k]@);
        }
    }
    let mut out: Vec<Vec<u8>> = Vec::new();
    let mut i: usize = 0;
    while i < chunks.len()
        invariant
            i <= chunks@.len(),
            byte_rows(chunks@) == chunks_of(packet@),
            forall|k: int| 0 <= k < chunks@.len() ==> #[trigger] chunks@[k]@.len() <= MAX_CHUNK_SIZE,
            byte_rows(out@) =~= byte_rows(chunks@).take(i as int).map_values(|c: Seq<u8>| report_of(c)),
        decreases chunks@.len() - i,
    {
        assert(byte_rows(chunks@)[i as int] == chunks@[i as int]@);
        let ghost before = byte_rows(out@);
        match output_report(chunks[i].as_slice()) {
            Ok(r) => {
                out.push(r);
                proof {
                    let rows = byte_rows(chunks@);
                    assert(byte_rows(out@) =~= before.push(r@));
                    assert(rows.take(i + 1).map_values(|c: Seq<u8>| report_of(c)) =~= rows.take(
                        i as int,
                    ).map_values(|c: Seq<u8>| report_of(c)).push(report_of(rows[i as int])));
                }
            },
            Err(_) => {
                assert(false);
            },
        }
        i = i + 1;
    }
    assert(byte_rows(chunks@).take(i as int) =~= byte_rows(chunks@));
    out
}

/// The MAC address that a device-information reply carries: payload bytes 1 to 6, when the
/// payload holds at least seven bytes.
pub open spec fn reply_mac(payload: Seq<u8>) -> Option<Seq<u8>> {
    if payload.len() >= 7 {
        Some(payload.subrange(1, 7))
    } else {
        None
    }
}

/// MAC address from the reply to a device-information request, if the reply holds one.
pub fn mac_from_reply(reply: &Option<RbResponse>) -> (res: Option<[u8; 6]>)
    ensures
        res is Some <==> (reply matches Some(r) && reply_mac(r.payload@) is Some),
        res matches Some(m) ==> (reply matches Some(r) && reply_mac(r.payload@) == Some(m@)),
{
    match reply {
        Some(r) => {
            if r.payload.len() >= 7 {
                let p = &r.payload;
                let mac: [u8; 6] = [p[1], p[2], p[3], p[4], p[5], p[6]];
                assert(mac@ =~= p@.subrange(1, 7));
                Some(mac)
            } else {
                None
            }
        },
        None => None,
    }
}

/// Layout of an output report: `REPORT_LEN` bytes, report id 0, the chunk, then zeros.
pub proof fn lemma_report_layout(chunk: Seq<u8>)
    requires
        chunk.len() <= MAX_CHUNK_SIZE,
    ensures
        report_of(chunk).len() == REPORT_LEN,
        report_of(chunk)[0] == 0,
        report_of(chunk).subrange(1, chunk.len() + 1int) == chunk,
        forall|k: int| chunk.len() + 1 <= k < REPORT_LEN ==> #[trigger] report_of(chunk)[k] == 0,
{
    assert(report_of(chunk).subrange(1, chunk.len() + 1int) =~= chunk);
}

/// The MAC address of a reply is payload bytes 1 to 6, present exactly when the payload holds at
/// least seven bytes.
pub proof fn lemma_reply_mac_bytes(payload: Seq<u8>)
    ensures
        reply_mac(payload) is Some <==> payload.len() >= 7,
        payload.len() >= 7 ==> reply_mac(payload).unwrap().len() == 6,
        payload.len() >= 7 ==> forall|k: int| 0 <= k < 6 ==> #[trigger] reply_mac(payload).unwrap()[k] == payload[k + 1],
{
}

/// The interface that is opened: it is a keyboard interface (usage page 1, usage 6) only when
/// all of the controller's interfaces are; among equals in that respect it has a vendor-defined
/// usage page (0xFF00 or above) when any has; among equals in both it is interface 0 when any
/// is; and no earlier interface is equal to it in all three respects.
pub proof fn lemma_preferred_device(devs: Seq<DeviceCandidate>, i: int)
    requires
        is_preferred(devs, i),
    ensures
        forall|j: int| 0 <= j < devs.len() && is_target(#[trigger] devs[j]) ==> {
            let a = devs[i];
            let b = devs[j];
            let kb_a = a.usage_page == 1 && a.usage == 6;
            let kb_b = b.usage_page == 1 && b.usage == 6;
            &&& kb_a ==> kb_b
            &&& (kb_a == kb_b && b.usage_page >= 0xFF00) ==> a.usage_page >= 0xFF00
            &&& (kb_a == kb_b && (a.usage_page >= 0xFF00) == (b.usage_page >= 0xFF00) && b.interface_number == 0)
                ==> a.interface_number == 0
            &&& j < i ==> !(kb_a == kb_b && (a.usage_page >= 0xFF00) == (b.usage_page >= 0xFF00) && (
                a.interface_number == 0) == (b.interface_number == 0))
        },
{
}

} // verus!
