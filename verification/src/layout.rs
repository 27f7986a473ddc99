//! What packets look like on the wire: which bytes hold what.

use crate::control::{AckCif, ControlType, ControlView};
use crate::crypto::key_material::{CipherMode, KeyFlags, KmView};
use crate::handshake;
use crate::handshake::{EncryptionField, ExtensionView, HandshakeView, SrtHandshake};
use crate::loss_list;
use crate::packet::{DataView, Encryption, PacketPosition, PacketView, SocketId};
use crate::wire;
use vstd::prelude::*;
use vstd::utf8;

verus! {

/// The number that four bytes from `i` on stand for, most significant first.
pub open spec fn word(s: Seq<u8>, i: int) -> int {
    s[i] * 16_777_216 + s[i + 1] * 65_536 + s[i + 2] * 256 + s[i + 3]
}

/// The number that two bytes from `i` on stand for, most significant first.
pub open spec fn half_word(s: Seq<u8>, i: int) -> int {
    s[i] * 256 + s[i + 1]
}

/// The bytes of a 32-bit integer stand for it wherever they are.
pub proof fn lemma_word(s: Seq<u8>, i: int, v: u32)
    requires
        0 <= i,
        i + 4 <= s.len(),
        s.subrange(i, i + 4) == wire::be32(v),
    ensures
        word(s, i) == v,
{
    let part = s.subrange(i, i + 4);
    assert(part[0] == s[i] && part[1] == s[i + 1] && part[2] == s[i + 2] && part[3] == s[i + 3]);
}

/// The bytes of a 16-bit integer stand for it wherever they are.
pub proof fn lemma_half_word(s: Seq<u8>, i: int, v: u16)
    requires
        0 <= i,
        i + 2 <= s.len(),
        s.subrange(i, i + 2) == wire::be16(v),
    ensures
        half_word(s, i) == v,
{
    let part = s.subrange(i, i + 2);
    assert(part[0] == s[i] && part[1] == s[i + 1]);
}

/// A data packet on the wire: the sequence number, which leaves the top bit clear; then,
/// from the top, two bits of position, the order bit, two bits of key selection, the
/// retransmission bit and 26 bits of message number; the timestamp; the destination; and
/// the payload.
pub proof fn law_data_packets_on_the_wire(d: DataView)
    requires
        d.in_range(),
    ensures
        ({
            let b = PacketView::Data(d).bytes();
            &&& b.len() == 16 + d.payload.len()
            &&& word(b, 0) == d.seq
            &&& word(b, 4) == (match d.position {
                PacketPosition::First => 0x8000_0000int,
                PacketPosition::Middle => 0,
                PacketPosition::Last => 0x4000_0000,
                PacketPosition::Single => 0xC000_0000,
            }) + (if d.in_order {
                0x2000_0000int
            } else {
                0
            }) + (match d.encryption {
                Encryption::Unencrypted => 0int,
                Encryption::Even => 0x0800_0000,
                Encryption::Odd => 0x1000_0000,
            }) + (if d.retransmitted {
                0x0400_0000int
            } else {
                0
            }) + d.message_number
            &&& word(b, 8) == d.timestamp
            &&& word(b, 12) == d.dest_socket_id.0
            &&& b.skip(16) == d.payload
        }),
{
    let b = PacketView::Data(d).bytes();
    assert(b.subrange(0, 4) =~= wire::be32(d.seq));
    assert(b.subrange(4, 8) =~= wire::be32(d.flags_word()));
    assert(b.subrange(8, 12) =~= wire::be32(d.timestamp));
    assert(b.subrange(12, 16) =~= wire::be32(d.dest_socket_id.0));
    lemma_word(b, 0, d.seq);
    lemma_word(b, 4, d.flags_word());
    lemma_word(b, 8, d.timestamp);
    lemma_word(b, 12, d.dest_socket_id.0);
    assert(b.skip(16) =~= d.payload);
}

/// A control packet on the wire: the top bit set over 15 bits of type, and 16 bits of
/// subtype; the type-specific word; the timestamp; the destination; and the contents.
pub proof fn law_control_packets_on_the_wire(
    timestamp: u32,
    dest_socket_id: SocketId,
    body: ControlView,
)
    ensures
        ({
            let b = (PacketView::Control { timestamp, dest_socket_id, body }).bytes();
            &&& b.len() == 16 + body.cif_bytes().len()
            &&& word(b, 0) == 0x8000_0000 + body.control_type().raw() * 65_536
                + body.subtype()
            &&& word(b, 4) == body.type_specific()
            &&& word(b, 8) == timestamp
            &&& word(b, 12) == dest_socket_id.0
            &&& b.skip(16) == body.cif_bytes()
        }),
{
    let b = (PacketView::Control { timestamp, dest_socket_id, body }).bytes();
    let kind = (0x8000_0000 + body.control_type().raw() * 0x1_0000 + body.subtype()) as u32;
    assert(body.control_type().raw() < 0x8000);
    assert(b.subrange(0, 4) =~= wire::be32(kind));
    assert(b.subrange(4, 8) =~= wire::be32(body.type_specific()));
    assert(b.subrange(8, 12) =~= wire::be32(timestamp));
    assert(b.subrange(12, 16) =~= wire::be32(dest_socket_id.0));
    lemma_word(b, 0, kind);
    lemma_word(b, 4, body.type_specific());
    lemma_word(b, 8, timestamp);
    lemma_word(b, 12, dest_socket_id.0);
    assert(b.skip(16) =~= body.cif_bytes());
}

/// Every kind of control packet has its number, and the word that goes with it: an
/// acknowledgement and its answer the acknowledgement's number, a drop request the message
/// number, a peer error its code.
pub proof fn law_kinds_have_their_numbers(body: ControlView)
    ensures
        body.control_type().raw() == (match body {
            ControlView::Handshake(_) => 0u16,
            ControlView::Keepalive => 1,
            ControlView::Ack { .. } => 2,
            ControlView::Nak { .. } => 3,
            ControlView::CongestionWarning => 4,
            ControlView::Shutdown => 5,
            ControlView::AckAck { .. } => 6,
            ControlView::DropReq { .. } => 7,
            ControlView::PeerError { .. } => 8,
            ControlView::Raw { control_type, .. } => control_type.raw(),
        }),
        ControlType::UserDefined.raw() == 0x7FFF,
        body.type_specific() == (match body {
            ControlView::Ack { ack_number, .. } => ack_number,
            ControlView::AckAck { ack_number } => ack_number,
            ControlView::DropReq { message_number, .. } => message_number,
            ControlView::PeerError { error_code } => error_code,
            ControlView::Raw { type_specific, .. } => type_specific,
            _ => 0,
        }),
        body.subtype() == (match body {
            ControlView::Raw { subtype, .. } => subtype,
            _ => 0,
        }),
{
}

/// An acknowledgement on the wire: the number expected next; with more detail the round
/// trip, its variance and the room; in full also the packets per second, the capacity of
/// the link and the bytes per second. A light one has nothing but the number.
pub proof fn law_acknowledgements_on_the_wire(ack_number: u32, last_ack_seq: u32, cif: AckCif)
    ensures
        ({
            let b = (ControlView::Ack { ack_number, last_ack_seq, cif }).cif_bytes();
            &&& word(b, 0) == last_ack_seq
            &&& cif is Light ==> b.len() == 4
            &&& cif matches AckCif::Small { rtt, rtt_variance, avail_buffer_size } ==> {
                &&& b.len() == 16
                &&& word(b, 4) == rtt
                &&& word(b, 8) == rtt_variance
                &&& word(b, 12) == avail_buffer_size
            }
            &&& cif matches AckCif::Full {
                rtt,
                rtt_variance,
                avail_buffer_size,
                packets_recv_rate,
                estimated_link_capacity,
                receiving_rate,
            } ==> {
                &&& b.len() == 28
                &&& word(b, 4) == rtt
                &&& word(b, 8) == rtt_variance
                &&& word(b, 12) == avail_buffer_size
                &&& word(b, 16) == packets_recv_rate
                &&& word(b, 20) == estimated_link_capacity
                &&& word(b, 24) == receiving_rate
            }
        }),
{
    let b = (ControlView::Ack { ack_number, last_ack_seq, cif }).cif_bytes();
    assert(b.subrange(0, 4) =~= wire::be32(last_ack_seq));
    lemma_word(b, 0, last_ack_seq);
    match cif {
        AckCif::Light => {},
        AckCif::Small { rtt, rtt_variance, avail_buffer_size } => {
            assert(b.subrange(4, 8) =~= wire::be32(rtt));
            assert(b.subrange(8, 12) =~= wire::be32(rtt_variance));
            assert(b.subrange(12, 16) =~= wire::be32(avail_buffer_size));
            lemma_word(b, 4, rtt);
            lemma_word(b, 8, rtt_variance);
            lemma_word(b, 12, avail_buffer_size);
        },
        AckCif::Full {
            rtt,
            rtt_variance,
            avail_buffer_size,
            packets_recv_rate,
            estimated_link_capacity,
            receiving_rate,
        } => {
            assert(b.subrange(4, 8) =~= wire::be32(rtt));
            assert(b.subrange(8, 12) =~= wire::be32(rtt_variance));
            assert(b.subrange(12, 16) =~= wire::be32(avail_buffer_size));
            assert(b.subrange(16, 20) =~= wire::be32(packets_recv_rate));
            assert(b.subrange(20, 24) =~= wire::be32(estimated_link_capacity));
            assert(b.subrange(24, 28) =~= wire::be32(receiving_rate));
            lemma_word(b, 4, rtt);
            lemma_word(b, 8, rtt_variance);
            lemma_word(b, 12, avail_buffer_size);
            lemma_word(b, 16, packets_recv_rate);
            lemma_word(b, 20, estimated_link_capacity);
            lemma_word(b, 24, receiving_rate);
        },
    }
}

/// A drop request on the wire: the first and the last number of the range. A loss report
/// is its loss list, a handshake its own bytes, and what is not known is kept as it is.
pub proof fn law_other_contents_on_the_wire(message_number: u32, first: u32, last: u32)
    ensures
        ({
            let b = (ControlView::DropReq { message_number, first, last }).cif_bytes();
            &&& b.len() == 8
            &&& word(b, 0) == first
            &&& word(b, 4) == last
        }),
        forall|loss: Seq<(u32, u32)>|
            (#[trigger] (ControlView::Nak { loss }).cif_bytes()) == loss_list::encode_list(loss),
        forall|hs: HandshakeView|
            (#[trigger] ControlView::Handshake(hs).cif_bytes()) == hs.bytes(),
        ControlView::Keepalive.cif_bytes().len() == 0,
        ControlView::Shutdown.cif_bytes().len() == 0,
        (ControlView::AckAck { ack_number: message_number }).cif_bytes().len() == 0,
{
    let b = (ControlView::DropReq { message_number, first, last }).cif_bytes();
    assert(b.subrange(0, 4) =~= wire::be32(first));
    assert(b.subrange(4, 8) =~= wire::be32(last));
    lemma_word(b, 0, first);
    lemma_word(b, 4, last);
}

/// A loss list on the wire, range by range: a single number as one word, a longer range as
/// two, its first number with the top bit set and its last number; each range stands right
/// behind those before it.
pub proof fn law_loss_lists_on_the_wire(ranges: Seq<(u32, u32)>, r: (u32, u32))
    requires
        loss_list::valid_range(r),
    ensures
        ({
            let before = loss_list::encode_list(ranges);
            let b = loss_list::encode_list(ranges.push(r));
            let n = before.len() as int;
            &&& b.take(n) == before
            &&& r.0 == r.1 ==> b.len() == n + 4 && word(b, n) == r.0
            &&& r.0 != r.1 ==> b.len() == n + 8 && word(b, n) == r.0 + 0x8000_0000
                && word(b, n + 4) == r.1
        }),
        loss_list::encode_list(Seq::empty()).len() == 0,
{
    let parts = ranges.map_values(|r: (u32, u32)| loss_list::encode_range(r));
    let more = ranges.push(r).map_values(|r: (u32, u32)| loss_list::encode_range(r));
    assert(more.drop_last() =~= parts);
    assert(more.last() == loss_list::encode_range(r));
    let before = loss_list::encode_list(ranges);
    let b = loss_list::encode_list(ranges.push(r));
    let n = before.len() as int;
    assert(b == before + loss_list::encode_range(r));
    assert(b.take(n) =~= before);
    assert(Seq::<(u32, u32)>::empty().map_values(|r: (u32, u32)| loss_list::encode_range(r)) =~= Seq::empty());
    if r.0 == r.1 {
        assert(b.subrange(n, n + 4) =~= wire::be32(r.0));
        lemma_word(b, n, r.0);
    } else {
        let top = (r.0 + 0x8000_0000) as u32;
        assert(b.subrange(n, n + 4) =~= wire::be32(top));
        assert(b.subrange(n + 4, n + 8) =~= wire::be32(r.1));
        lemma_word(b, n, top);
        lemma_word(b, n + 4, r.1);
    }
}

/// A handshake on the wire: version, encryption and extension field, initial sequence
/// number, packet size, window, type, socket id, cookie, sixteen bytes of address, and the
/// extensions one behind the other.
pub proof fn law_handshakes_on_the_wire(hs: HandshakeView)
    requires
        hs.peer_ip.len() == 16,
    ensures
        ({
            let b = hs.bytes();
            &&& word(b, 0) == hs.version
            &&& half_word(b, 4) == (match hs.encryption {
                EncryptionField::Unencrypted => 0int,
                EncryptionField::Aes128 => 2,
                EncryptionField::Aes192 => 3,
                EncryptionField::Aes256 => 4,
            })
            &&& half_word(b, 6) == hs.extension_field
            &&& word(b, 8) == hs.initial_seq
            &&& word(b, 12) == hs.mtu
            &&& word(b, 16) == hs.max_flow_window
            &&& word(b, 20) == hs.handshake_type.0
            &&& word(b, 24) == hs.srt_socket_id.0
            &&& word(b, 28) == hs.syn_cookie
            &&& b.subrange(32, 48) == hs.peer_ip
            &&& b.skip(48) == handshake::ext_bytes(hs.extensions)
        }),
{
    let b = hs.bytes();
    assert(b.subrange(0, 4) =~= wire::be32(hs.version));
    assert(b.subrange(4, 6) =~= wire::be16(hs.encryption.raw()));
    assert(b.subrange(6, 8) =~= wire::be16(hs.extension_field));
    assert(b.subrange(8, 12) =~= wire::be32(hs.initial_seq));
    assert(b.subrange(12, 16) =~= wire::be32(hs.mtu));
    assert(b.subrange(16, 20) =~= wire::be32(hs.max_flow_window));
    assert(b.subrange(20, 24) =~= wire::be32(hs.handshake_type.0));
    assert(b.subrange(24, 28) =~= wire::be32(hs.srt_socket_id.0));
    assert(b.subrange(28, 32) =~= wire::be32(hs.syn_cookie));
    assert(b.subrange(32, 48) =~= hs.peer_ip);
    assert(b.skip(48) =~= handshake::ext_bytes(hs.extensions));
    lemma_word(b, 0, hs.version);
    lemma_half_word(b, 4, hs.encryption.raw());
    lemma_half_word(b, 6, hs.extension_field);
    lemma_word(b, 8, hs.initial_seq);
    lemma_word(b, 12, hs.mtu);
    lemma_word(b, 16, hs.max_flow_window);
    lemma_word(b, 20, hs.handshake_type.0);
    lemma_word(b, 24, hs.srt_socket_id.0);
    lemma_word(b, 28, hs.syn_cookie);
}

/// An extension on the wire: its type, its length in blocks of four bytes, and its content.
/// The types are 1 and 2 for a handshake request and response, and 5 for a Stream ID.
pub proof fn law_extensions_on_the_wire(e: ExtensionView)
    requires
        e.encodable(),
    ensures
        ({
            let b = e.bytes();
            let content = e.content();
            &&& half_word(b, 0) == (match e {
                ExtensionView::HsReq(_) => 1int,
                ExtensionView::HsRsp(_) => 2,
                ExtensionView::StreamId(_) => 5,
                ExtensionView::Raw { ext_type, .. } => ext_type as int,
            })
            &&& half_word(b, 2) == content.len() / 4
            &&& b.skip(4) == content
        }),
{
    let b = e.bytes();
    let blocks = (e.content().len() / 4) as u16;
    assert(b.subrange(0, 2) =~= wire::be16(e.ext_type()));
    assert(b.subrange(2, 4) =~= wire::be16(blocks));
    assert(b.skip(4) =~= e.content());
    lemma_half_word(b, 0, e.ext_type());
    lemma_half_word(b, 2, blocks);
}

/// The content of a handshake extension: the version, the flags, the delay wanted as a
/// receiver and the one wanted as a sender.
pub proof fn law_srt_handshakes_on_the_wire(hs: SrtHandshake)
    ensures
        hs.bytes().len() == 12,
        word(hs.bytes(), 0) == hs.srt_version,
        word(hs.bytes(), 4) == hs.flags.0,
        half_word(hs.bytes(), 8) == hs.recv_tsbpd_delay,
        half_word(hs.bytes(), 10) == hs.send_tsbpd_delay,
{
    let b = hs.bytes();
    assert(b.subrange(0, 4) =~= wire::be32(hs.srt_version));
    assert(b.subrange(4, 8) =~= wire::be32(hs.flags.0));
    assert(b.subrange(8, 10) =~= wire::be16(hs.recv_tsbpd_delay));
    assert(b.subrange(10, 12) =~= wire::be16(hs.send_tsbpd_delay));
    lemma_word(b, 0, hs.srt_version);
    lemma_word(b, 4, hs.flags.0);
    lemma_half_word(b, 8, hs.recv_tsbpd_delay);
    lemma_half_word(b, 10, hs.send_tsbpd_delay);
}

/// A Stream ID on the wire: its UTF-8 bytes, padded with zeros to whole blocks of four,
/// and each block back to front.
pub proof fn law_stream_ids_on_the_wire(id: Seq<char>, i: int)
    requires
        0 <= i < handshake::stream_id_bytes(id).len(),
    ensures
        ({
            let plain = utf8::encode_utf8(id);
            let from = 4 * (i / 4) + 3 - i % 4;
            &&& handshake::stream_id_bytes(id).len() == (plain.len() + 3) / 4 * 4
            &&& handshake::stream_id_bytes(id)[i] == (if from < plain.len() {
                plain[from]
            } else {
                0
            })
        }),
{
}

/// Key material on the wire: version 1 and packet type 2, the signature 0x2029, which keys
/// it carries, the cipher, whether that authenticates, the encapsulation 2, the lengths of
/// salt and key in words of four bytes; the salt; and the wrapped keys.
pub proof fn law_key_material_on_the_wire(km: KmView)
    requires
        km.salt.len() == 16,
    ensures
        ({
            let b = km.bytes();
            &&& b[0] == 0x12
            &&& half_word(b, 1) == 0x2029
            &&& b[3] == (match km.key_flags {
                KeyFlags::Even => 1u8,
                KeyFlags::Odd => 2,
                KeyFlags::Both => 3,
            })
            &&& word(b, 4) == 0
            &&& b[8] == (match km.cipher {
                CipherMode::Ctr => 2u8,
                CipherMode::Gcm => 4,
            })
            &&& b[9] == (match km.cipher {
                CipherMode::Ctr => 0u8,
                CipherMode::Gcm => 1,
            })
            &&& b[10] == 2
            &&& b[14] == 4
            &&& b[15] == km.key_length / 4
            &&& b.subrange(16, 32) == km.salt
            &&& b.skip(32) == km.wrapped
        }),
{
    let b = km.bytes();
    assert(b.subrange(16, 32) =~= km.salt);
    assert(b.skip(32) =~= km.wrapped);
}

} // verus!
