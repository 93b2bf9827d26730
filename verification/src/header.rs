use vstd::prelude::*;

verus! {

/// The little-endian 16-bit word at index `i` of `s`.
pub open spec fn le_u16(s: Seq<u8>, i: int) -> int {
    s[i] + 256 * s[i + 1]
}

/// The little-endian 32-bit word at index `i` of `s`.
pub open spec fn le_u32(s: Seq<u8>, i: int) -> int {
    le_u16(s, i) + 65536 * le_u16(s, i + 2)
}

/// The fixed fields that open a telemetry packet: its start word, the
/// version of its format and its type.
pub struct PacketHeader {
    pub presync: u32,
    pub version: u16,
    pub pkt_type: u16,
}

/// Reads the header of a packet longer than its eight header bytes; a
/// shorter packet has no header to report.
pub fn packet_header(data: &[u8]) -> (r: Option<PacketHeader>)
    ensures
        r is Some <==> data@.len() > 8,
        r matches Some(h) ==> {
            &&& h.presync == le_u32(data@, 0)
            &&& h.version == le_u16(data@, 4)
            &&& h.pkt_type == le_u16(data@, 6)
        },
{
    if data.len() > 8 {
        let presync_low: u32 = data[0] as u32 + 256 * data[1] as u32;
        let presync_high: u32 = data[2] as u32 + 256 * data[3] as u32;
        let version: u16 = data[4] as u16 + 256 * data[5] as u16;
        let pkt_type: u16 = data[6] as u16 + 256 * data[7] as u16;
        Some(PacketHeader { presync: presync_low + 65536 * presync_high, version, pkt_type })
    } else {
        None
    }
}

} // verus!
