use abnf::core_rules::alpha;
use abnf::core_rules::alphas;
use abnf::core_rules::crlf;
use abnf::core_rules::digits;
use abnf::core_rules::lwsp;
use abnf::core_rules::opt_wsps;
use abnf::core_rules::parse_line;
use abnf::core_rules::skip_crlf;
use abnf::core_rules::skip_dquote;
use abnf::core_rules::skip_lwsp;
use abnf::core_rules::skip_opt_wsps;
use abnf::core_rules::skip_wsps;
use abnf::core_rules::test_alpha;
use abnf::core_rules::test_bit;
use abnf::core_rules::test_char;
use abnf::core_rules::test_cr;
use abnf::core_rules::test_ctl;
use abnf::core_rules::test_digit;
use abnf::core_rules::test_dquote;
use abnf::core_rules::test_hexdig;
use abnf::core_rules::test_htab;
use abnf::core_rules::test_lf;
use abnf::core_rules::test_sp;
use abnf::core_rules::test_vchar;
use abnf::core_rules::test_wsp;
use abnf::core_rules::u16_digits;
use abnf::core_rules::u16_hexdigs;
use abnf::core_rules::u32_digits;
use abnf::core_rules::u32_hexdigs;
use abnf::core_rules::u64_digits;
use abnf::core_rules::u64_hexdigs;
use abnf::core_rules::u8_digits;
use abnf::core_rules::u8_hexdigs;
use abnf::number::digit_of;
use abnf::number::fold_u16;
use abnf::number::fold_u32;
use abnf::number::fold_u64;
use abnf::number::fold_u8;
use abnf::parse::token::Token;
use abnf::parse::token::TokenError;
use abnf::MatchOutcome;
use bytes::Bytes;
use bytes::BytesMut;

fn buf(slice: &[u8]) -> BytesMut {
    BytesMut::from(Vec::from(slice))
}

#[test]
fn test_u8_digits() {
    for i in 0u8..255 {
        assert_eq!(
            u8_digits(&mut BytesMut::from(format!("{} ", i).into_bytes())),
            MatchOutcome::Complete(i)
        );
    }
    assert!(u8_digits(&mut buf(b"256 ")).is_failed());
    assert!(u8_digits(&mut buf(b"2568 ")).is_failed());
    assert!(u8_digits(&mut buf(b"fee ")).is_failed());
    assert!(u8_digits(&mut buf(b" ")).is_failed());
}

#[test]
fn test_u16_hexdigs() {
    for i in 0u16..0xFFFF {
        assert_eq!(
            u16_hexdigs(&mut BytesMut::from(format!("{:x} ", i).into_bytes())),
            MatchOutcome::Complete(i)
        );
        assert_eq!(
            u16_hexdigs(&mut BytesMut::from(format!("{:X} ", i).into_bytes())),
            MatchOutcome::Complete(i)
        );
    }
    assert!(u16_hexdigs(&mut buf(b"70256 ")).is_failed());
    assert!(u16_hexdigs(&mut buf(b" ")).is_failed());
}

fn members(test: fn(u8) -> bool) -> Vec<u8> {
    (0u8..=255).filter(|ch| test(*ch)).collect()
}

#[test]
fn octet_classes() {
    let mut letters: Vec<u8> = (b'A'..=b'Z').collect();
    letters.extend(b'a'..=b'z');
    assert_eq!(members(test_alpha), letters);
    assert_eq!(members(test_bit), vec![b'0', b'1']);
    assert_eq!(members(test_char), (1u8..=127).collect::<Vec<u8>>());
    assert_eq!(members(test_cr), vec![13]);
    let mut controls: Vec<u8> = (0u8..32).collect();
    controls.push(127);
    assert_eq!(members(test_ctl), controls);
    assert_eq!(members(test_digit), (b'0'..=b'9').collect::<Vec<u8>>());
    assert_eq!(members(test_dquote), vec![b'"']);
    let mut hex: Vec<u8> = (b'0'..=b'9').collect();
    hex.extend(b'A'..=b'F');
    hex.extend(b'a'..=b'f');
    assert_eq!(members(test_hexdig), hex);
    assert_eq!(members(test_htab), vec![9]);
    assert_eq!(members(test_lf), vec![10]);
    assert_eq!(members(test_sp), vec![32]);
    assert_eq!(members(test_vchar), (0x21u8..=0x7E).collect::<Vec<u8>>());
    assert_eq!(members(test_wsp), vec![9, 32]);
}

#[test]
fn one_and_many_of_a_class() {
    let mut b = buf(b"ab1");
    let mut t = Token::new(&mut b);
    assert_eq!(alpha(&mut t), MatchOutcome::Complete(()));
    assert_eq!(t.remaining(), b"b1");
    assert_eq!(alphas(&mut t), MatchOutcome::Complete(()));
    assert_eq!(t.remaining(), b"1");
    assert_eq!(alpha(&mut t), MatchOutcome::Failed(TokenError));
    assert_eq!(alphas(&mut t), MatchOutcome::Failed(TokenError));
    assert_eq!(digits(&mut t), MatchOutcome::Pending);
}

#[test]
fn crlf_is_two_octets() {
    let mut b = buf(b"\r\nx");
    assert_eq!(skip_crlf(&mut b), MatchOutcome::Complete(()));
    assert_eq!(&b[..], b"x");
    assert_eq!(skip_crlf(&mut b), MatchOutcome::Failed(TokenError));
    assert_eq!(&b[..], b"x");
    let mut b = buf(b"\r");
    assert_eq!(skip_crlf(&mut b), MatchOutcome::Pending);
    assert_eq!(&b[..], b"\r");
    let mut b = buf(b"\rx");
    assert_eq!(skip_crlf(&mut b), MatchOutcome::Failed(TokenError));
    assert_eq!(&b[..], b"\rx");
    let mut t = Token::new(&mut b);
    assert_eq!(crlf(&mut t), MatchOutcome::Failed(TokenError));
    assert_eq!(t.remaining(), b"x");
}

#[test]
fn line_ends_at_the_first_crlf() {
    let mut b = buf(b"ab\r\ncd\r\n");
    assert_eq!(
        parse_line(&mut b),
        MatchOutcome::Complete(Bytes::from(&b"ab\r\n"[..]))
    );
    assert_eq!(&b[..], b"cd\r\n");
    let mut b = buf(b"ab\rcd\n");
    assert_eq!(parse_line(&mut b), MatchOutcome::Pending);
    assert_eq!(&b[..], b"ab\rcd\n");
    let mut b = buf(b"\r\n");
    assert_eq!(parse_line(&mut b), MatchOutcome::Complete(Bytes::from(&b"\r\n"[..])));
    let mut b = buf(b"");
    let mut t = Token::new(&mut b);
    assert_eq!(abnf::core_rules::line(&mut t), MatchOutcome::Pending);
}

#[test]
fn lwsp_takes_white_space_and_crlf_in_turn() {
    let mut b = buf(b" \r\n\t\r\nx");
    assert_eq!(skip_lwsp(&mut b), MatchOutcome::Complete(()));
    assert_eq!(&b[..], b"x");
    assert_eq!(skip_lwsp(&mut b), MatchOutcome::Complete(()));
    assert_eq!(&b[..], b"x");
    let mut b = buf(b" x");
    assert_eq!(skip_lwsp(&mut b), MatchOutcome::Complete(()));
    assert_eq!(&b[..], b"x");
    let mut b = buf(b" \rx");
    assert_eq!(skip_lwsp(&mut b), MatchOutcome::Complete(()));
    assert_eq!(&b[..], b"x");
    let mut b = buf(b" \r\n");
    assert_eq!(skip_lwsp(&mut b), MatchOutcome::Pending);
    assert_eq!(&b[..], b" \r\n");
    let mut b = buf(b" \r");
    let mut t = Token::new(&mut b);
    assert_eq!(lwsp(&mut t), MatchOutcome::Pending);
}

#[test]
fn white_space_and_quotes() {
    let mut b = buf(b" \t x");
    {
        let mut t = Token::new(&mut b);
        assert_eq!(opt_wsps(&mut t), MatchOutcome::Complete(true));
        assert_eq!(t.remaining(), b"x");
        assert_eq!(opt_wsps(&mut t), MatchOutcome::Complete(false));
    }
    assert_eq!(skip_wsps(&mut b), MatchOutcome::Complete(()));
    assert_eq!(&b[..], b"x");
    assert_eq!(skip_wsps(&mut b), MatchOutcome::Failed(TokenError));
    assert_eq!(skip_opt_wsps(&mut b), MatchOutcome::Complete(false));
    assert_eq!(&b[..], b"x");
    let mut b = buf(b"  x");
    assert_eq!(skip_opt_wsps(&mut b), MatchOutcome::Complete(true));
    assert_eq!(&b[..], b"x");
    let mut b = buf(b"  ");
    assert_eq!(skip_opt_wsps(&mut b), MatchOutcome::Pending);
    assert_eq!(skip_wsps(&mut b), MatchOutcome::Pending);
    assert_eq!(&b[..], b"  ");
    let mut b = buf(b"\"x");
    assert_eq!(skip_dquote(&mut b), MatchOutcome::Complete(()));
    assert_eq!(skip_dquote(&mut b), MatchOutcome::Failed(TokenError));
    assert_eq!(&b[..], b"x");
}

#[test]
fn numbers_at_the_limits_of_their_width() {
    assert_eq!(u8_digits(&mut buf(b"255 ")), MatchOutcome::Complete(255));
    assert_eq!(u16_digits(&mut buf(b"65535 ")), MatchOutcome::Complete(65535));
    assert_eq!(u16_digits(&mut buf(b"65536 ")), MatchOutcome::Failed(TokenError));
    assert_eq!(
        u32_digits(&mut buf(b"4294967295 ")),
        MatchOutcome::Complete(4294967295)
    );
    assert_eq!(
        u32_digits(&mut buf(b"4294967296 ")),
        MatchOutcome::Failed(TokenError)
    );
    assert_eq!(
        u64_digits(&mut buf(b"18446744073709551615 ")),
        MatchOutcome::Complete(18446744073709551615)
    );
    assert_eq!(
        u64_digits(&mut buf(b"18446744073709551616 ")),
        MatchOutcome::Failed(TokenError)
    );
    assert_eq!(
        u64_digits(&mut buf(b"99999999999999999999 ")),
        MatchOutcome::Failed(TokenError)
    );
    assert_eq!(u8_hexdigs(&mut buf(b"fF ")), MatchOutcome::Complete(255));
    assert_eq!(u8_hexdigs(&mut buf(b"100 ")), MatchOutcome::Failed(TokenError));
    assert_eq!(u16_hexdigs(&mut buf(b"FFFF ")), MatchOutcome::Complete(0xFFFF));
    assert_eq!(
        u32_hexdigs(&mut buf(b"deadBEEF ")),
        MatchOutcome::Complete(0xDEADBEEF)
    );
    assert_eq!(
        u32_hexdigs(&mut buf(b"100000000 ")),
        MatchOutcome::Failed(TokenError)
    );
    assert_eq!(
        u64_hexdigs(&mut buf(b"ffffffffffffffff ")),
        MatchOutcome::Complete(u64::MAX)
    );
    assert_eq!(
        u64_hexdigs(&mut buf(b"10000000000000000 ")),
        MatchOutcome::Failed(TokenError)
    );
    assert_eq!(u8_digits(&mut buf(b"007 ")), MatchOutcome::Complete(7));
    assert_eq!(u8_digits(&mut buf(b"0000000255x")), MatchOutcome::Complete(255));
}

#[test]
fn every_u64_in_a_sample_is_decoded_from_its_text() {
    let mut n: u64 = 1;
    for _ in 0..2000 {
        let text = format!("{};", n);
        assert_eq!(
            u64_digits(&mut BytesMut::from(text.into_bytes())),
            MatchOutcome::Complete(n)
        );
        n = n.wrapping_mul(6364136223846793005).wrapping_add(1442695040888963407);
    }
}

#[test]
fn numbers_leave_the_buffer_as_the_other_rules_do() {
    let mut b = buf(b"12 34");
    assert_eq!(u8_digits(&mut b), MatchOutcome::Complete(12));
    assert_eq!(&b[..], b" 34");
    assert_eq!(u8_digits(&mut b), MatchOutcome::Failed(TokenError));
    assert_eq!(&b[..], b" 34");
    let mut b = buf(b"256 ");
    assert_eq!(u8_digits(&mut b), MatchOutcome::Failed(TokenError));
    assert_eq!(&b[..], b"256 ");
    let mut b = buf(b"25");
    assert_eq!(u8_digits(&mut b), MatchOutcome::Pending);
    assert_eq!(&b[..], b"25");
    b.extend_from_slice(b"5 ");
    assert_eq!(u8_digits(&mut b), MatchOutcome::Complete(255));
    assert_eq!(&b[..], b" ");
    let mut b = buf(b"");
    assert_eq!(u8_digits(&mut b), MatchOutcome::Pending);
}

#[test]
fn folding_digits() {
    assert_eq!(digit_of(b'0'), 0);
    assert_eq!(digit_of(b'9'), 9);
    assert_eq!(digit_of(b'a'), 10);
    assert_eq!(digit_of(b'F'), 15);
    assert_eq!(fold_u8(b"", 10), Ok(0));
    assert_eq!(fold_u8(b"255", 10), Ok(255));
    assert_eq!(fold_u8(b"256", 10), Err(TokenError));
    assert_eq!(fold_u8(b"260", 10), Err(TokenError));
    assert_eq!(fold_u8(b"ff", 16), Ok(255));
    assert_eq!(fold_u16(b"70256", 16), Err(TokenError));
    assert_eq!(fold_u16(b"1f", 16), Ok(31));
    assert_eq!(fold_u32(b"4294967295", 10), Ok(u32::MAX));
    assert_eq!(fold_u32(b"4294967296", 10), Err(TokenError));
    assert_eq!(fold_u64(b"18446744073709551615", 10), Ok(u64::MAX));
    assert_eq!(fold_u64(b"18446744073709551616", 10), Err(TokenError));
}
