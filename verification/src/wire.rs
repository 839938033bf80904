//! The Sv2 wire encoding of the messages a program sends, as `stratum_core` writes them.
use stratum_core::binary_sv2::{to_writer, GetSize, Str0255};
use stratum_core::common_messages_sv2::SetupConnection;
use vstd::prelude::*;
use vstd::utf8::encode_utf8;

verus! {

/// The message type of `SetupConnection`.
pub const MESSAGE_TYPE_SETUP_CONNECTION: u8 = 0x00;

/// A `u16` on the wire: little endian.
pub open spec fn le16(v: u16) -> Seq<u8> {
    seq![(v % 0x100) as u8, (v / 0x100) as u8]
}

/// A `u32` on the wire: little endian.
pub open spec fn le32(v: u32) -> Seq<u8> {
    seq![(v % 0x100) as u8, ((v / 0x100) % 0x100) as u8, ((v / 0x1_0000) % 0x100) as u8, (v / 0x100_0000) as u8]
}

/// A `STR0_255` on the wire: its length in one byte, then its UTF-8 bytes.
pub open spec fn str0_255(s: Seq<char>) -> Seq<u8> {
    seq![encode_utf8(s).len() as u8] + encode_utf8(s)
}

/// Whether a string fits a `STR0_255`: at most 255 bytes of UTF-8.
pub open spec fn fits_str0_255(s: Seq<char>) -> bool {
    encode_utf8(s).len() <= 255
}

/// The payload of a `SetupConnection`, its fields in the order the specification gives them.
pub open spec fn setup_connection_bytes(
    protocol: u8,
    min_version: u16,
    max_version: u16,
    flags: u32,
    endpoint_host: Seq<char>,
    endpoint_port: u16,
    vendor: Seq<char>,
    hardware_version: Seq<char>,
    firmware: Seq<char>,
    device_id: Seq<char>,
) -> Seq<u8> {
    seq![protocol] + le16(min_version) + le16(max_version) + le32(flags) + str0_255(endpoint_host) + le16(endpoint_port)
        + str0_255(vendor) + str0_255(hardware_version) + str0_255(firmware) + str0_255(device_id)
}

/// `SetupConnection` encoded by `binary_sv2::to_writer` into a buffer of its `get_size`, each
/// string converted by `Str0255::try_from`: the payload above when every string fits, and
/// `None` when one does not. The protocol is its wire number, below 3.
#[verifier::external_body]
pub(crate) fn encode_setup_connection(protocol: u8, min_version: u16, max_version: u16, flags: u32, endpoint_host: &str, endpoint_port: u16, vendor: &str, hardware_version: &str, firmware: &str, device_id: &str) -> (r: Option<Vec<u8>>)
    requires
        protocol <= 2,
    ensures
        r is Some <==> (fits_str0_255(endpoint_host@) && fits_str0_255(vendor@) && fits_str0_255(hardware_version@) && fits_str0_255(firmware@) && fits_str0_255(device_id@)),
        r matches Some(bytes) ==> bytes@ == setup_connection_bytes(protocol, min_version, max_version, flags, endpoint_host@, endpoint_port, vendor@, hardware_version@, firmware@, device_id@),
{
    let message = SetupConnection {
        protocol: protocol.try_into().ok()?,
        min_version,
        max_version,
        flags,
        endpoint_host: Str0255::try_from(endpoint_host).ok()?,
        endpoint_port,
        vendor: Str0255::try_from(vendor).ok()?,
        hardware_version: Str0255::try_from(hardware_version).ok()?,
        firmware: Str0255::try_from(firmware).ok()?,
        device_id: Str0255::try_from(device_id).ok()?,
    };
    let mut payload = vec![0u8; message.get_size()];
    to_writer(message, &mut payload).ok()?;
    Some(payload)
}

} // verus!
