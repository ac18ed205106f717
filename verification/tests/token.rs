use abnf::parse::token::cat;
use abnf::parse::token::cats;
use abnf::parse::token::convert;
use abnf::parse::token::literal;
use abnf::parse::token::octet;
use abnf::parse::token::opt_cats;
use abnf::parse::token::opt_octet;
use abnf::parse::token::parse;
use abnf::parse::token::parse_literal;
use abnf::parse::token::skip;
use abnf::parse::token::skip_literal;
use abnf::parse::token::skip_octet;
use abnf::parse::token::skip_opt;
use abnf::parse::token::skip_opt_octet;
use abnf::parse::token::translate_literal;
use abnf::parse::token::Token;
use abnf::parse::token::TokenError;
use abnf::MatchOutcome;
use bytes::Bytes;
use bytes::BytesMut;

fn buf(slice: &[u8]) -> BytesMut {
    BytesMut::from(Vec::from(slice))
}

fn is_digit(ch: u8) -> bool {
    ch >= b'0' && ch <= b'9'
}

fn two_digits(token: &mut Token) -> MatchOutcome<(), TokenError> {
    match cat(token, is_digit) {
        MatchOutcome::Complete(()) => cat(token, is_digit),
        other => other,
    }
}

#[test]
fn token_advances_without_touching_the_buffer() {
    let mut b = buf(b"abc");
    {
        let mut t = Token::new(&mut b);
        assert_eq!(t.first::<TokenError>(), MatchOutcome::Complete(b'a'));
        assert_eq!(t.remaining(), b"abc");
        t.advance(1);
        assert_eq!(t.first::<TokenError>(), MatchOutcome::Complete(b'b'));
        assert_eq!(t.remaining(), b"bc");
        t.advance(2);
        assert_eq!(t.first::<TokenError>(), MatchOutcome::Pending);
        assert_eq!(t.remaining(), b"");
    }
    assert_eq!(&b[..], b"abc");
}

#[test]
fn token_advance_if_reports_the_test() {
    let mut b = buf(b"ab");
    let mut t = Token::new(&mut b);
    assert_eq!(
        t.advance_if::<_, TokenError>(|ch| ch == b'a'),
        MatchOutcome::Complete(true)
    );
    assert_eq!(t.remaining(), b"b");
    assert_eq!(
        t.advance_if::<_, TokenError>(|ch| ch == b'a'),
        MatchOutcome::Complete(false)
    );
    assert_eq!(t.remaining(), b"b");
    t.advance(1);
    assert_eq!(
        t.advance_if::<_, TokenError>(|ch| ch == b'a'),
        MatchOutcome::Pending
    );
}

#[test]
fn token_expect_makes_the_error() {
    let mut b = buf(b"ab");
    let mut t = Token::new(&mut b);
    assert_eq!(t.expect(|ch| ch == b'a', || 7u32), MatchOutcome::Complete(()));
    assert_eq!(t.expect(|ch| ch == b'a', || 7u32), MatchOutcome::Failed(7u32));
    assert_eq!(t.remaining(), b"b");
    t.advance(1);
    assert_eq!(t.expect(|ch| ch == b'a', || 7u32), MatchOutcome::Pending);
}

#[test]
fn token_split_drains_what_was_advanced_over() {
    let mut b = buf(b"abc");
    let mut t = Token::new(&mut b);
    t.advance(2);
    let span = t.split();
    assert_eq!(span, Bytes::from(&b"ab"[..]));
    assert_eq!(&b[..], b"c");
}

#[test]
fn token_skip_drops_what_was_advanced_over() {
    let mut b = buf(b"abc");
    let mut t = Token::new(&mut b);
    t.advance(1);
    t.skip();
    assert_eq!(&b[..], b"bc");
}

#[test]
fn parse_drains_only_a_match() {
    let mut b = buf(b"12x");
    assert_eq!(
        parse(&mut b, two_digits),
        MatchOutcome::Complete(Bytes::from(&b"12"[..]))
    );
    assert_eq!(&b[..], b"x");
    let mut b = buf(b"1x2");
    assert_eq!(parse(&mut b, two_digits), MatchOutcome::Failed(TokenError));
    assert_eq!(&b[..], b"1x2");
    let mut b = buf(b"1");
    assert_eq!(parse(&mut b, two_digits), MatchOutcome::Pending);
    assert_eq!(&b[..], b"1");
}

#[test]
fn convert_keeps_the_token_when_decoding_fails() {
    let decode = |found: Result<&[u8], TokenError>| -> Result<u8, &'static str> {
        match found {
            Ok(span) => {
                let value = (span[0] - b'0') * 10 + (span[1] - b'0');
                if value < 50 {
                    Ok(value)
                } else {
                    Err("too large")
                }
            }
            Err(_) => Err("no digits"),
        }
    };
    let mut b = buf(b"12x");
    assert_eq!(convert(&mut b, two_digits, decode), MatchOutcome::Complete(12));
    assert_eq!(&b[..], b"x");
    let mut b = buf(b"77x");
    assert_eq!(
        convert(&mut b, two_digits, decode),
        MatchOutcome::Failed("too large")
    );
    assert_eq!(&b[..], b"77x");
    let mut b = buf(b"x");
    assert_eq!(
        convert(&mut b, two_digits, decode),
        MatchOutcome::Failed("no digits")
    );
    assert_eq!(&b[..], b"x");
    let mut b = buf(b"7");
    assert_eq!(convert(&mut b, two_digits, decode), MatchOutcome::Pending);
    assert_eq!(&b[..], b"7");
}

#[test]
fn convert_may_recover_from_the_error_of_the_token() {
    let decode = |found: Result<&[u8], TokenError>| -> Result<usize, TokenError> {
        match found {
            Ok(span) => Ok(span.len()),
            Err(_) => Ok(0),
        }
    };
    let mut b = buf(b"x1");
    assert_eq!(convert(&mut b, two_digits, decode), MatchOutcome::Complete(0));
    assert_eq!(&b[..], b"x1");
}

#[test]
fn skip_and_skip_opt() {
    let mut b = buf(b"12x");
    assert_eq!(skip(&mut b, two_digits), MatchOutcome::Complete(()));
    assert_eq!(&b[..], b"x");
    assert_eq!(skip(&mut b, two_digits), MatchOutcome::Failed(TokenError));
    assert_eq!(&b[..], b"x");
    assert_eq!(skip_opt(&mut b, two_digits), MatchOutcome::Complete(false));
    assert_eq!(&b[..], b"x");
    let mut b = buf(b"12x");
    assert_eq!(skip_opt(&mut b, two_digits), MatchOutcome::Complete(true));
    assert_eq!(&b[..], b"x");
    let mut b = buf(b"1");
    assert_eq!(skip_opt(&mut b, two_digits), MatchOutcome::Pending);
    assert_eq!(&b[..], b"1");
}

#[test]
fn octets() {
    let mut b = buf(b"ab");
    {
        let mut t = Token::new(&mut b);
        assert_eq!(octet(&mut t, b'a'), MatchOutcome::Complete(()));
        assert_eq!(octet(&mut t, b'a'), MatchOutcome::Failed(TokenError));
        assert_eq!(
            opt_octet::<TokenError>(&mut t, b'a'),
            MatchOutcome::Complete(false)
        );
        assert_eq!(
            opt_octet::<TokenError>(&mut t, b'b'),
            MatchOutcome::Complete(true)
        );
        assert_eq!(octet(&mut t, b'a'), MatchOutcome::Pending);
        assert_eq!(opt_octet::<TokenError>(&mut t, b'a'), MatchOutcome::Pending);
    }
    assert_eq!(skip_octet(&mut b, b'a'), MatchOutcome::Complete(()));
    assert_eq!(&b[..], b"b");
    assert_eq!(skip_octet(&mut b, b'a'), MatchOutcome::Failed(TokenError));
    assert_eq!(skip_opt_octet(&mut b, b'a'), MatchOutcome::Complete(false));
    assert_eq!(&b[..], b"b");
    assert_eq!(skip_opt_octet(&mut b, b'b'), MatchOutcome::Complete(true));
    assert_eq!(&b[..], b"");
    assert_eq!(skip_opt_octet(&mut b, b'b'), MatchOutcome::Pending);
    assert_eq!(skip_octet(&mut b, b'b'), MatchOutcome::Pending);
}

#[test]
fn categories() {
    let mut b = buf(b"12x");
    let mut t = Token::new(&mut b);
    assert_eq!(cats(&mut t, is_digit), MatchOutcome::Complete(()));
    assert_eq!(t.remaining(), b"x");
    assert_eq!(cats(&mut t, is_digit), MatchOutcome::Failed(TokenError));
    assert_eq!(opt_cats(&mut t, is_digit), MatchOutcome::Complete(false));
    assert_eq!(cat(&mut t, is_digit), MatchOutcome::Failed(TokenError));
    assert_eq!(t.remaining(), b"x");

    let mut b = buf(b"12");
    let mut t = Token::new(&mut b);
    assert_eq!(cats(&mut t, is_digit), MatchOutcome::Pending);

    let mut b = buf(b"12");
    let mut t = Token::new(&mut b);
    assert_eq!(opt_cats(&mut t, is_digit), MatchOutcome::Pending);

    let mut b = buf(b"12x");
    let mut t = Token::new(&mut b);
    assert_eq!(opt_cats(&mut t, is_digit), MatchOutcome::Complete(true));
    assert_eq!(t.remaining(), b"x");

    let mut b = buf(b"");
    let mut t = Token::new(&mut b);
    assert_eq!(cat(&mut t, is_digit), MatchOutcome::Pending);
    assert_eq!(cats(&mut t, is_digit), MatchOutcome::Pending);
    assert_eq!(opt_cats(&mut t, is_digit), MatchOutcome::Pending);
}

#[test]
fn test_literal() {
    let mut buf = buf(b"FOO ");
    assert_eq!(skip_literal(&mut buf, b"FOO"), MatchOutcome::Complete(()));
    assert_eq!(&buf[..], b" ");
}

#[test]
fn literals() {
    let mut b = buf(b"FoO bar");
    {
        let mut t = Token::new(&mut b);
        assert_eq!(literal(&mut t, b"foo"), MatchOutcome::Complete(()));
        assert_eq!(t.remaining(), b" bar");
        assert_eq!(literal(&mut t, b"foo"), MatchOutcome::Failed(TokenError));
        assert_eq!(literal(&mut t, b" bar!"), MatchOutcome::Pending);
        assert_eq!(literal(&mut t, b" bax!"), MatchOutcome::Failed(TokenError));
        assert_eq!(literal(&mut t, b""), MatchOutcome::Complete(()));
        assert_eq!(t.remaining(), b" bar");
    }
    assert_eq!(
        parse_literal(&mut b, b"FOO"),
        MatchOutcome::Complete(Bytes::from(&b"FoO"[..]))
    );
    assert_eq!(&b[..], b" bar");
    assert_eq!(parse_literal(&mut b, b"FOO"), MatchOutcome::Failed(TokenError));
    assert_eq!(&b[..], b" bar");
    assert_eq!(skip_literal(&mut b, b" bar!"), MatchOutcome::Pending);
    assert_eq!(&b[..], b" bar");
}

#[test]
fn translate_literal_picks_from_a_list() {
    let mut b = buf(b"quit ");
    assert_eq!(
        translate_literal::<u8, TokenError>(&mut b, b"echo", 1),
        MatchOutcome::Complete(None)
    );
    assert_eq!(&b[..], b"quit ");
    assert_eq!(
        translate_literal::<u8, TokenError>(&mut b, b"quit", 2),
        MatchOutcome::Complete(Some(2))
    );
    assert_eq!(&b[..], b" ");
    let mut b = buf(b"qu");
    assert_eq!(
        translate_literal::<u8, TokenError>(&mut b, b"quit", 2),
        MatchOutcome::Pending
    );
}
