use abnf::ipaddr::ipv4_octet;
use abnf::ipaddr::ipv6_comp;
use abnf::ipaddr::ipv6_full;
use abnf::ipaddr::ipv6_hex;
use abnf::ipaddr::ipv6v4_comp;
use abnf::ipaddr::ipv6v4_full;
use abnf::ipaddr::parse_ipv4_addr;
use abnf::ipaddr::parse_ipv6_addr;
use abnf::ipaddr::Ipv4Addr;
use abnf::ipaddr::Ipv6Addr;
use abnf::parse::token::TokenError;
use abnf::MatchOutcome;
use bytes::BytesMut;

fn buf(slice: &[u8]) -> BytesMut {
    BytesMut::from(Vec::from(slice))
}

#[test]
fn ipv4_good() {
    assert_eq!(
        parse_ipv4_addr(&mut buf(b"127.0.0.1 ")),
        MatchOutcome::Complete(Ipv4Addr::new(127, 0, 0, 1))
    );
}

#[test]
fn ipv6_good() {
    assert_eq!(
        parse_ipv6_addr(&mut buf(b"FEDC:BA98:7654:3210:FEDC:BA98:7654:3210 ")),
        MatchOutcome::Complete(Ipv6Addr::new(
            0xFEDC, 0xBA98, 0x7654, 0x3210, 0xFEDC, 0xBA98, 0x7654, 0x3210
        ))
    );
    assert_eq!(
        parse_ipv6_addr(&mut buf(b"1080:0:0:0:8:800:200C:417A ")),
        MatchOutcome::Complete(Ipv6Addr::new(0x1080, 0, 0, 0, 8, 0x800, 0x200C, 0x417A))
    );
    assert_eq!(
        parse_ipv6_addr(&mut buf(b"1080::8:800:200C:417A ")),
        MatchOutcome::Complete(Ipv6Addr::new(0x1080, 0, 0, 0, 8, 0x800, 0x200C, 0x417A))
    );
    assert_eq!(
        parse_ipv6_addr(&mut buf(b"FF01::43 ")),
        MatchOutcome::Complete(Ipv6Addr::new(0xFF01, 0, 0, 0, 0, 0, 0, 0x43))
    );
    assert_eq!(
        parse_ipv6_addr(&mut buf(b"::1 ")),
        MatchOutcome::Complete(Ipv6Addr::new(0, 0, 0, 0, 0, 0, 0, 1))
    );
    assert_eq!(
        parse_ipv6_addr(&mut buf(b":: ")),
        MatchOutcome::Complete(Ipv6Addr::new(0, 0, 0, 0, 0, 0, 0, 0))
    );
}

#[test]
fn ipv6_compressed_with_embedded_ipv4() {
    let mut b = buf(b"::FFFF:192.0.2.1 ");
    assert_eq!(
        parse_ipv6_addr(&mut b),
        MatchOutcome::Complete(Ipv6Addr::new(0, 0, 0, 0, 0, 0xFFFF, 0xC000, 0x0201))
    );
    assert_eq!(&b[..], b" ");
}

fn v6(text: &[u8]) -> MatchOutcome<Ipv6Addr, TokenError> {
    parse_ipv6_addr(&mut buf(text))
}

#[test]
fn addresses_give_their_parts() {
    assert_eq!(Ipv4Addr::new(1, 2, 3, 4).octets(), [1, 2, 3, 4]);
    assert_eq!(
        Ipv6Addr::new(1, 2, 3, 4, 5, 6, 7, 8).segments(),
        [1, 2, 3, 4, 5, 6, 7, 8]
    );
}

#[test]
fn ipv4_octets_have_one_to_three_digits() {
    assert_eq!(ipv4_octet(&mut buf(b"0.")), MatchOutcome::Complete(0));
    assert_eq!(ipv4_octet(&mut buf(b"255.")), MatchOutcome::Complete(255));
    assert_eq!(ipv4_octet(&mut buf(b"007.")), MatchOutcome::Complete(7));
    assert_eq!(ipv4_octet(&mut buf(b"256.")), MatchOutcome::Failed(TokenError));
    assert_eq!(ipv4_octet(&mut buf(b"0255.")), MatchOutcome::Failed(TokenError));
    assert_eq!(ipv4_octet(&mut buf(b".")), MatchOutcome::Failed(TokenError));
    assert_eq!(ipv4_octet(&mut buf(b"25")), MatchOutcome::Pending);
    assert_eq!(ipv4_octet(&mut buf(b"")), MatchOutcome::Pending);
}

#[test]
fn ipv4_rejects_and_waits() {
    let mut b = buf(b"256.0.0.1 ");
    assert_eq!(parse_ipv4_addr(&mut b), MatchOutcome::Failed(TokenError));
    assert_eq!(&b[..], b"256.0.0.1 ");
    let mut b = buf(b"1.2.3");
    assert_eq!(parse_ipv4_addr(&mut b), MatchOutcome::Pending);
    assert_eq!(&b[..], b"1.2.3");
    let mut b = buf(b"1.2.3.");
    assert_eq!(parse_ipv4_addr(&mut b), MatchOutcome::Pending);
    assert_eq!(&b[..], b"1.2.3.");
    let mut b = buf(b"1.2.3.4");
    assert_eq!(parse_ipv4_addr(&mut b), MatchOutcome::Pending);
    assert_eq!(&b[..], b"1.2.3.4");
    let mut b = buf(b"1.2.3 ");
    assert_eq!(parse_ipv4_addr(&mut b), MatchOutcome::Failed(TokenError));
    assert_eq!(&b[..], b"1.2.3 ");
    let mut b = buf(b"1.2.3.256 ");
    assert_eq!(parse_ipv4_addr(&mut b), MatchOutcome::Failed(TokenError));
    assert_eq!(&b[..], b"1.2.3.256 ");
    let mut b = buf(b"1..2.3 ");
    assert_eq!(parse_ipv4_addr(&mut b), MatchOutcome::Failed(TokenError));
    assert_eq!(&b[..], b"1..2.3 ");
}

#[test]
fn ipv4_leaves_what_follows() {
    let mut b = buf(b"255.255.255.255]rest");
    assert_eq!(
        parse_ipv4_addr(&mut b),
        MatchOutcome::Complete(Ipv4Addr::new(255, 255, 255, 255))
    );
    assert_eq!(&b[..], b"]rest");
    let mut b = buf(b"1.2.3.4.5 ");
    assert_eq!(
        parse_ipv4_addr(&mut b),
        MatchOutcome::Complete(Ipv4Addr::new(1, 2, 3, 4))
    );
    assert_eq!(&b[..], b".5 ");
}

#[test]
fn ipv4_in_two_parts() {
    let mut b = buf(b"127.0.");
    assert_eq!(parse_ipv4_addr(&mut b), MatchOutcome::Pending);
    b.extend_from_slice(b"0.1 x");
    assert_eq!(
        parse_ipv4_addr(&mut b),
        MatchOutcome::Complete(Ipv4Addr::new(127, 0, 0, 1))
    );
    assert_eq!(&b[..], b" x");
}

#[test]
fn ipv6_groups_have_one_to_four_digits() {
    assert_eq!(ipv6_hex(&mut buf(b"0:")), MatchOutcome::Complete(0));
    assert_eq!(ipv6_hex(&mut buf(b"fFfF:")), MatchOutcome::Complete(0xFFFF));
    assert_eq!(ipv6_hex(&mut buf(b"0001 ")), MatchOutcome::Complete(1));
    assert_eq!(ipv6_hex(&mut buf(b"00001:")), MatchOutcome::Failed(TokenError));
    assert_eq!(ipv6_hex(&mut buf(b"12345:")), MatchOutcome::Failed(TokenError));
    assert_eq!(ipv6_hex(&mut buf(b":")), MatchOutcome::Failed(TokenError));
    assert_eq!(ipv6_hex(&mut buf(b"192.")), MatchOutcome::Failed(TokenError));
    assert_eq!(ipv6_hex(&mut buf(b"12")), MatchOutcome::Pending);
    let mut b = buf(b"192.");
    assert_eq!(ipv6_hex(&mut b), MatchOutcome::Failed(TokenError));
    assert_eq!(&b[..], b"192.");
}

#[test]
fn ipv6_full_form() {
    assert_eq!(
        ipv6_full(&mut buf(b"1:2:3:4:5:6:7:8 ")),
        MatchOutcome::Complete(Ipv6Addr::new(1, 2, 3, 4, 5, 6, 7, 8))
    );
    assert_eq!(
        ipv6_full(&mut buf(b"1:2:3:4:5:6:7 ")),
        MatchOutcome::Failed(TokenError)
    );
    assert_eq!(ipv6_full(&mut buf(b"1:2:3:4:5:6:7:8")), MatchOutcome::Pending);
    assert_eq!(ipv6_full(&mut buf(b"::1 ")), MatchOutcome::Failed(TokenError));
    let mut b = buf(b"1:2:3:4:5:6:7:8:9 ");
    assert_eq!(
        ipv6_full(&mut b),
        MatchOutcome::Complete(Ipv6Addr::new(1, 2, 3, 4, 5, 6, 7, 8))
    );
    assert_eq!(&b[..], b":9 ");
}

#[test]
fn ipv6_compressed_form() {
    assert_eq!(
        ipv6_comp(&mut buf(b"1:2::7:8 ")),
        MatchOutcome::Complete(Ipv6Addr::new(1, 2, 0, 0, 0, 0, 7, 8))
    );
    assert_eq!(
        ipv6_comp(&mut buf(b"1:2:3:4:5:6:: ")),
        MatchOutcome::Complete(Ipv6Addr::new(1, 2, 3, 4, 5, 6, 0, 0))
    );
    assert_eq!(
        ipv6_comp(&mut buf(b"::3:4:5:6:7:8 ")),
        MatchOutcome::Complete(Ipv6Addr::new(0, 0, 3, 4, 5, 6, 7, 8))
    );
    assert_eq!(
        ipv6_comp(&mut buf(b"1:2:3::6:7:8 ")),
        MatchOutcome::Complete(Ipv6Addr::new(1, 2, 3, 0, 0, 6, 7, 8))
    );
    assert_eq!(ipv6_comp(&mut buf(b"1::")), MatchOutcome::Pending);
    assert_eq!(ipv6_comp(&mut buf(b":")), MatchOutcome::Pending);
    assert_eq!(ipv6_comp(&mut buf(b"1:")), MatchOutcome::Pending);
    assert_eq!(ipv6_comp(&mut buf(b"1:2")), MatchOutcome::Pending);
    assert_eq!(ipv6_comp(&mut buf(b":1 ")), MatchOutcome::Failed(TokenError));
    assert_eq!(
        ipv6_comp(&mut buf(b"1:2:3:4:5:6:7::8 ")),
        MatchOutcome::Failed(TokenError)
    );
    assert_eq!(
        ipv6_comp(&mut buf(b"1:2:3:4:5:6:7:8 ")),
        MatchOutcome::Failed(TokenError)
    );
    assert_eq!(ipv6_comp(&mut buf(b"1::2: ")), MatchOutcome::Failed(TokenError));
    assert_eq!(
        ipv6_comp(&mut buf(b"1::12345 ")),
        MatchOutcome::Failed(TokenError)
    );
    assert_eq!(ipv6_comp(&mut buf(b"1 ")), MatchOutcome::Failed(TokenError));
}

#[test]
fn ipv6_compressed_form_stops_at_its_budget() {
    let mut b = buf(b"1:2:3::4:5:6:7 ");
    assert_eq!(
        ipv6_comp(&mut b),
        MatchOutcome::Complete(Ipv6Addr::new(1, 2, 3, 0, 0, 4, 5, 6))
    );
    assert_eq!(&b[..], b":7 ");
    let mut b = buf(b"1:2:3:4:5:6::7 ");
    assert_eq!(
        ipv6_comp(&mut b),
        MatchOutcome::Complete(Ipv6Addr::new(1, 2, 3, 4, 5, 6, 0, 0))
    );
    assert_eq!(&b[..], b"7 ");
}

#[test]
fn ipv6_with_embedded_ipv4() {
    assert_eq!(
        ipv6v4_full(&mut buf(b"0:0:0:0:0:FFFF:129.144.52.38 ")),
        MatchOutcome::Complete(Ipv6Addr::new(0, 0, 0, 0, 0, 0xFFFF, 0x8190, 0x3426))
    );
    assert_eq!(
        v6(b"0:0:0:0:0:FFFF:129.144.52.38 "),
        MatchOutcome::Complete(Ipv6Addr::new(0, 0, 0, 0, 0, 0xFFFF, 0x8190, 0x3426))
    );
    assert_eq!(
        ipv6v4_comp(&mut buf(b"::13.1.68.3 ")),
        MatchOutcome::Complete(Ipv6Addr::new(0, 0, 0, 0, 0, 0, 0x0D01, 0x4403))
    );
    assert_eq!(
        v6(b"::13.1.68.3 "),
        MatchOutcome::Complete(Ipv6Addr::new(0, 0, 0, 0, 0, 0, 0x0D01, 0x4403))
    );
    assert_eq!(
        v6(b"1:2::3:4:1.2.3.4 "),
        MatchOutcome::Complete(Ipv6Addr::new(1, 2, 0, 0, 3, 4, 0x0102, 0x0304))
    );
    assert_eq!(
        v6(b"1:2:3:4::1.2.3.4 "),
        MatchOutcome::Complete(Ipv6Addr::new(1, 2, 3, 4, 0, 0, 0x0102, 0x0304))
    );
    assert_eq!(v6(b"1:2:3:4:5::1.2.3.4 "), MatchOutcome::Failed(TokenError));
    assert_eq!(v6(b"::FFFF:192.0.2.256 "), MatchOutcome::Failed(TokenError));
    assert_eq!(v6(b"::FFFF:192.0.2 "), MatchOutcome::Failed(TokenError));
    assert_eq!(v6(b"::FFFF:192.0.2.1"), MatchOutcome::Pending);
    assert_eq!(v6(b"::FFFF:192.0."), MatchOutcome::Pending);
    assert_eq!(v6(b"1:2:3:4:5:6:7.8.9.10 ").is_complete(), true);
    assert_eq!(v6(b"1:2:3:4:5:6:7:8.9.10.11 "), MatchOutcome::Failed(TokenError));
}

#[test]
fn ipv6_is_pending_while_a_form_is() {
    assert_eq!(v6(b""), MatchOutcome::Pending);
    assert_eq!(v6(b"1080"), MatchOutcome::Pending);
    assert_eq!(v6(b"1080:"), MatchOutcome::Pending);
    assert_eq!(v6(b"1080::8:800:200C:417A"), MatchOutcome::Pending);
    assert_eq!(v6(b"::"), MatchOutcome::Pending);
    assert_eq!(v6(b":"), MatchOutcome::Pending);
    assert_eq!(v6(b"FEDC:BA98:7654:3210:FEDC:BA98:7654:3210"), MatchOutcome::Pending);
}

#[test]
fn ipv6_fails_and_rewinds() {
    for text in [
        &b"1:2:3 "[..],
        &b"12345::1 "[..],
        &b":1 "[..],
        &b"x"[..],
        &b" ::1"[..],
        &b"1:2:3:4:5:6:7 "[..],
        &b"1::2::3 x"[..],
    ] {
        let mut b = buf(text);
        assert_eq!(parse_ipv6_addr(&mut b), MatchOutcome::Failed(TokenError));
        assert_eq!(&b[..], text);
    }
}

#[test]
fn ipv6_in_two_parts() {
    let whole = b"1080::8:800:200C:417A rest";
    for cut in 0..whole.len() {
        let mut b = buf(&whole[..cut]);
        let first = parse_ipv6_addr(&mut b);
        let res = if first.is_pending() {
            assert_eq!(&b[..], &whole[..cut]);
            b.extend_from_slice(&whole[cut..]);
            parse_ipv6_addr(&mut b)
        } else {
            b.extend_from_slice(&whole[cut..]);
            first
        };
        assert_eq!(
            res,
            MatchOutcome::Complete(Ipv6Addr::new(0x1080, 0, 0, 0, 8, 0x800, 0x200C, 0x417A))
        );
        assert_eq!(&b[..], b" rest");
    }
}
