use srt_protocol::connection::setup::srt_handshake_ext;
use srt_protocol::handshake::SrtFlags;

#[test]
fn the_handshake_advertises_every_implemented_capability() {
    let hs = srt_handshake_ext(120);
    for (flag, name) in [
        (SrtFlags::TSBPD_SND, "TSBPD_SND"),
        (SrtFlags::TSBPD_RCV, "TSBPD_RCV"),
        (SrtFlags::TLPKTDROP, "TLPKTDROP"),
        (SrtFlags::PERIODIC_NAK, "PERIODIC_NAK"),
        (SrtFlags::REXMIT, "REXMIT"),
    ] {
        assert!(hs.flags.contains(flag), "{name} must be advertised");
    }
    assert_eq!(hs.recv_tsbpd_delay, 120);
    assert_eq!(hs.send_tsbpd_delay, 120);
}
