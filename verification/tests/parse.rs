use abnf::parse::attempt;
use abnf::parse::cat;
use abnf::parse::cats;
use abnf::parse::cats_cat;
use abnf::parse::cats_len;
use abnf::parse::escaped;
use abnf::parse::final_cats;
use abnf::parse::literal;
use abnf::parse::nm_cats;
use abnf::parse::octet;
use abnf::parse::opt_cats;
use abnf::parse::repeat;
use abnf::parse::repeat_len;
use abnf::parse::Error;
use abnf::MatchOutcome;
use bytes::BytesMut;

fn buf(slice: &[u8]) -> BytesMut {
    BytesMut::from(Vec::from(slice))
}

fn escape_seq(slice: &[u8]) -> MatchOutcome<usize, Error> {
    assert!(!slice.is_empty());
    if slice[0] == 33 || (slice[0] >= 35 && slice[0] <= 91) || (slice[0] >= 93 && slice[0] <= 126)
    {
        return MatchOutcome::Complete(1);
    }
    if slice[0] == 92 {
        if slice.len() < 2 {
            return MatchOutcome::Pending;
        }
        if slice[0] >= 32 && slice[0] <= 126 {
            return MatchOutcome::Complete(2);
        }
    }
    MatchOutcome::Failed(Error)
}

fn is_digit(ch: u8) -> bool {
    ch >= b'0' && ch <= b'9'
}

fn is_comma(ch: u8) -> bool {
    ch == b','
}

#[test]
fn test_escape() {
    assert_eq!(
        escaped(&mut buf(b"foo "), escape_seq),
        MatchOutcome::Complete(buf(b"foo"))
    );
    assert_eq!(
        escaped(&mut buf(b"f\\oo\\  "), escape_seq),
        MatchOutcome::Complete(buf(b"f\\oo\\ "))
    );
}

#[test]
fn escaped_leaves_the_rest_and_rewinds() {
    let mut b = buf(b"foo bar");
    assert_eq!(escaped(&mut b, escape_seq), MatchOutcome::Complete(buf(b"foo")));
    assert_eq!(&b[..], b" bar");
    let mut b = buf(b" foo");
    assert_eq!(escaped(&mut b, escape_seq), MatchOutcome::Failed(Error));
    assert_eq!(&b[..], b" foo");
    let mut b = buf(b"foo");
    assert_eq!(escaped(&mut b, escape_seq), MatchOutcome::Pending);
    assert_eq!(&b[..], b"foo");
    let mut b = buf(b"fo\\");
    assert_eq!(escaped(&mut b, escape_seq), MatchOutcome::Pending);
    assert_eq!(&b[..], b"fo\\");
}

#[test]
fn attempt_restores_the_buffer_unless_the_rule_matches() {
    let mut b = buf(b"ab");
    let res: MatchOutcome<(), Error> = attempt(&mut b, |buf: &mut BytesMut| {
        let _ = octet(buf, b'a');
        octet(buf, b'x')
    });
    assert_eq!(res, MatchOutcome::Failed(Error));
    assert_eq!(&b[..], b"ab");
    let res: MatchOutcome<(), Error> = attempt(&mut b, |buf: &mut BytesMut| {
        let _ = octet(buf, b'a');
        octet(buf, b'b')
    });
    assert_eq!(res, MatchOutcome::Complete(()));
    assert_eq!(&b[..], b"");
}

#[test]
fn octet_takes_one_octet() {
    let mut b = buf(b"ab");
    assert_eq!(octet(&mut b, b'a'), MatchOutcome::Complete(()));
    assert_eq!(&b[..], b"b");
    assert_eq!(octet(&mut b, b'a'), MatchOutcome::Failed(Error));
    assert_eq!(&b[..], b"b");
    let mut b = buf(b"");
    assert_eq!(octet(&mut b, b'a'), MatchOutcome::Pending);
}

#[test]
fn literal_ignores_case_and_fails_early() {
    let mut b = buf(b"FoO bar");
    assert_eq!(literal(&mut b, b"foo"), MatchOutcome::Complete(()));
    assert_eq!(&b[..], b" bar");
    let mut b = buf(b"fo");
    assert_eq!(literal(&mut b, b"foo"), MatchOutcome::Pending);
    assert_eq!(&b[..], b"fo");
    let mut b = buf(b"fx");
    assert_eq!(literal(&mut b, b"foo"), MatchOutcome::Failed(Error));
    assert_eq!(&b[..], b"fx");
    let mut b = buf(b"@oo");
    assert_eq!(literal(&mut b, b"`oo"), MatchOutcome::Failed(Error));
}

#[test]
fn cat_returns_the_octet() {
    let mut b = buf(b"7x");
    assert_eq!(cat(&mut b, is_digit), MatchOutcome::Complete(b'7'));
    assert_eq!(&b[..], b"x");
    assert_eq!(cat(&mut b, is_digit), MatchOutcome::Failed(Error));
    assert_eq!(&b[..], b"x");
    assert_eq!(cat(&mut buf(b""), is_digit), MatchOutcome::Pending);
}

#[test]
fn cats_needs_the_octet_behind_the_run() {
    let mut b = buf(b"123x");
    assert_eq!(cats(&mut b, is_digit), MatchOutcome::Complete(buf(b"123")));
    assert_eq!(&b[..], b"x");
    let mut b = buf(b"123");
    assert_eq!(cats(&mut b, is_digit), MatchOutcome::Pending);
    assert_eq!(&b[..], b"123");
    let mut b = buf(b"x123");
    assert_eq!(cats(&mut b, is_digit), MatchOutcome::Failed(Error));
    assert_eq!(&b[..], b"x123");
    assert_eq!(cats(&mut buf(b""), is_digit), MatchOutcome::Pending);
}

#[test]
fn cats_len_gives_the_length_of_the_run() {
    assert_eq!(cats_len(b"123x", is_digit), MatchOutcome::Complete(3));
    assert_eq!(cats_len(b"123", is_digit), MatchOutcome::Pending);
    assert_eq!(cats_len(b"x", is_digit), MatchOutcome::Failed(Error));
    assert_eq!(cats_len(b"", is_digit), MatchOutcome::Pending);
}

#[test]
fn final_cats_takes_all_or_nothing() {
    let mut b = buf(b"123");
    assert_eq!(final_cats(&mut b, is_digit), Ok(buf(b"123")));
    assert_eq!(&b[..], b"");
    let mut b = buf(b"12x");
    assert_eq!(final_cats(&mut b, is_digit), Err(Error));
    assert_eq!(&b[..], b"12x");
    assert_eq!(final_cats(&mut buf(b""), is_digit), Err(Error));
}

#[test]
fn opt_cats_waits_at_the_end_of_the_buffer() {
    let mut b = buf(b"12x");
    assert_eq!(opt_cats(&mut b, is_digit), MatchOutcome::Complete(Some(buf(b"12"))));
    assert_eq!(&b[..], b"x");
    assert_eq!(opt_cats(&mut b, is_digit), MatchOutcome::Complete(None));
    assert_eq!(&b[..], b"x");
    let mut b = buf(b"12");
    assert_eq!(opt_cats(&mut b, is_digit), MatchOutcome::Pending);
    assert_eq!(&b[..], b"12");
    assert_eq!(opt_cats(&mut buf(b""), is_digit), MatchOutcome::Pending);
}

#[test]
fn nm_cats_bounds_the_run() {
    let mut b = buf(b"12x");
    assert_eq!(nm_cats(&mut b, 1, 3, is_digit), MatchOutcome::Complete(buf(b"12")));
    assert_eq!(&b[..], b"x");
    let mut b = buf(b"123x");
    assert_eq!(nm_cats(&mut b, 1, 3, is_digit), MatchOutcome::Failed(Error));
    assert_eq!(&b[..], b"123x");
    assert_eq!(nm_cats(&mut buf(b"x"), 1, 3, is_digit), MatchOutcome::Failed(Error));
    assert_eq!(nm_cats(&mut buf(b"x"), 0, 3, is_digit), MatchOutcome::Complete(buf(b"")));
    assert_eq!(nm_cats(&mut buf(b"12"), 1, 3, is_digit), MatchOutcome::Pending);
}

#[test]
fn cats_cat_takes_the_delimiter_along() {
    let mut b = buf(b"12,34");
    assert_eq!(cats_cat(&mut b, is_digit as fn(u8) -> bool, is_comma), MatchOutcome::Complete(buf(b"12")));
    assert_eq!(&b[..], b"34");
    assert_eq!(cats_cat(&mut b, is_digit as fn(u8) -> bool, is_comma), MatchOutcome::Pending);
    assert_eq!(&b[..], b"34");
    let mut b = buf(b"1x,");
    assert_eq!(cats_cat(&mut b, is_digit as fn(u8) -> bool, is_comma), MatchOutcome::Failed(Error));
    assert_eq!(&b[..], b"1x,");
    assert_eq!(cats_cat(&mut buf(b","), is_digit as fn(u8) -> bool, is_comma), MatchOutcome::Pending);
    let mut b = buf(b",1");
    assert_eq!(cats_cat(&mut b, is_digit as fn(u8) -> bool, is_comma), MatchOutcome::Complete(buf(b"")));
    assert_eq!(&b[..], b"1");
}

fn pair_of_digits(slice: &[u8]) -> MatchOutcome<Option<usize>, Error> {
    if slice.is_empty() {
        MatchOutcome::Pending
    } else if !is_digit(slice[0]) {
        MatchOutcome::Complete(None)
    } else if slice.len() < 2 {
        MatchOutcome::Pending
    } else if is_digit(slice[1]) {
        MatchOutcome::Complete(Some(2))
    } else {
        MatchOutcome::Failed(Error)
    }
}

#[test]
fn repeat_len_adds_up_the_elements() {
    assert_eq!(repeat_len(b"1234x", pair_of_digits), MatchOutcome::Complete(4));
    assert_eq!(repeat_len(b"x", pair_of_digits), MatchOutcome::Complete(0));
    assert_eq!(repeat_len(b"1234", pair_of_digits), MatchOutcome::Pending);
    assert_eq!(repeat_len(b"123x", pair_of_digits), MatchOutcome::Failed(Error));
}

#[test]
fn repeat_drains_the_elements() {
    let mut b = buf(b"1234x");
    assert_eq!(repeat(&mut b, pair_of_digits), MatchOutcome::Complete(buf(b"1234")));
    assert_eq!(&b[..], b"x");
    let mut b = buf(b"123x");
    assert_eq!(repeat(&mut b, pair_of_digits), MatchOutcome::Failed(Error));
    assert_eq!(&b[..], b"123x");
    let mut b = buf(b"12");
    assert_eq!(repeat(&mut b, pair_of_digits), MatchOutcome::Pending);
    assert_eq!(&b[..], b"12");
}
