use abnf::core_rules::u8_digits;
use abnf::parse::rule::at_least_once;
use abnf::parse::rule::group;
use abnf::parse::rule::optional;
use abnf::parse::rule::repeat;
use abnf::parse::token::skip_octet;
use abnf::parse::token::TokenError;
use abnf::MatchOutcome;
use bytes::BytesMut;

fn buf(slice: &[u8]) -> BytesMut {
    BytesMut::from(Vec::from(slice))
}

fn number_and_comma(buf: &mut BytesMut) -> MatchOutcome<u8, TokenError> {
    group(buf, |buf: &mut BytesMut| {
        let value = match u8_digits(buf) {
            MatchOutcome::Complete(value) => value,
            MatchOutcome::Pending => return MatchOutcome::Pending,
            MatchOutcome::Failed(e) => return MatchOutcome::Failed(e),
        };
        match skip_octet(buf, b',') {
            MatchOutcome::Complete(()) => MatchOutcome::Complete(value),
            MatchOutcome::Pending => MatchOutcome::Pending,
            MatchOutcome::Failed(e) => MatchOutcome::Failed(e),
        }
    })
}

#[test]
fn group_rewinds_a_late_failure() {
    let mut b = buf(b"12;");
    assert_eq!(number_and_comma(&mut b), MatchOutcome::Failed(TokenError));
    assert_eq!(&b[..], b"12;");
    let mut b = buf(b"12,");
    assert_eq!(number_and_comma(&mut b), MatchOutcome::Complete(12));
    assert_eq!(&b[..], b"");
    let mut b = buf(b"12");
    assert_eq!(number_and_comma(&mut b), MatchOutcome::Pending);
    assert_eq!(&b[..], b"12");
}

#[test]
fn group_rewinds_what_the_rule_left_behind() {
    let mut b = buf(b"12;");
    let res: MatchOutcome<(), TokenError> = group(&mut b, |buf: &mut BytesMut| {
        let _ = u8_digits(buf);
        skip_octet(buf, b',')
    });
    assert_eq!(res, MatchOutcome::Failed(TokenError));
    assert_eq!(&b[..], b"12;");
}

#[test]
fn repeat_collects_until_the_element_fails() {
    let mut b = buf(b"1,2,3,x");
    let mut values = Vec::new();
    let res: MatchOutcome<(), TokenError> = repeat(&mut b, number_and_comma, |item| match item {
        Ok(value) => {
            values.push(value);
            MatchOutcome::Pending
        }
        Err(_) => MatchOutcome::Complete(()),
    });
    assert_eq!(res, MatchOutcome::Complete(()));
    assert_eq!(values, vec![1, 2, 3]);
    assert_eq!(&b[..], b"x");
}

#[test]
fn repeat_rewinds_when_it_is_pending_or_fails() {
    let mut b = buf(b"1,2,3");
    let res: MatchOutcome<(), TokenError> = repeat(&mut b, number_and_comma, |item| match item {
        Ok(_) => MatchOutcome::Pending,
        Err(_) => MatchOutcome::Complete(()),
    });
    assert_eq!(res, MatchOutcome::Pending);
    assert_eq!(&b[..], b"1,2,3");

    let mut b = buf(b"1,2,x");
    let res: MatchOutcome<(), TokenError> = repeat(&mut b, number_and_comma, |item| match item {
        Ok(_) => MatchOutcome::Pending,
        Err(err) => MatchOutcome::Failed(err),
    });
    assert_eq!(res, MatchOutcome::Failed(TokenError));
    assert_eq!(&b[..], b"1,2,x");
}

#[test]
fn repeat_counts_to_a_fixed_number() {
    let mut b = buf(b"1,2,3,4,");
    let mut count = 0;
    let mut sum = 0u32;
    let res: MatchOutcome<u32, TokenError> = repeat(&mut b, number_and_comma, |item| {
        count += 1;
        match item {
            Ok(value) => {
                sum += value as u32;
                if count == 3 {
                    MatchOutcome::Complete(sum)
                } else {
                    MatchOutcome::Pending
                }
            }
            Err(err) => MatchOutcome::Failed(err),
        }
    });
    assert_eq!(res, MatchOutcome::Complete(6));
    assert_eq!(&b[..], b"4,");
}

#[test]
fn at_least_once_needs_a_first_element() {
    let mut b = buf(b"x");
    let res: MatchOutcome<(), &'static str> = at_least_once(
        &mut b,
        number_and_comma,
        |item| match item {
            Ok(_) => MatchOutcome::Pending,
            Err(_) => MatchOutcome::Complete(()),
        },
        |_| "empty",
    );
    assert_eq!(res, MatchOutcome::Failed("empty"));
    assert_eq!(&b[..], b"x");

    let mut b = buf(b"1,2,x");
    let mut values = Vec::new();
    let res: MatchOutcome<(), &'static str> = at_least_once(
        &mut b,
        number_and_comma,
        |item| match item {
            Ok(value) => {
                values.push(value);
                MatchOutcome::Pending
            }
            Err(_) => MatchOutcome::Complete(()),
        },
        |_| "empty",
    );
    assert_eq!(res, MatchOutcome::Complete(()));
    assert_eq!(values, vec![1, 2]);
    assert_eq!(&b[..], b"x");

    let mut b = buf(b"1,2");
    let res: MatchOutcome<(), &'static str> = at_least_once(
        &mut b,
        number_and_comma,
        |item| match item {
            Ok(_) => MatchOutcome::Pending,
            Err(_) => MatchOutcome::Complete(()),
        },
        |_| "empty",
    );
    assert_eq!(res, MatchOutcome::Pending);
    assert_eq!(&b[..], b"1,2");
}

#[test]
fn optional_never_fails() {
    let mut b = buf(b"1,x");
    let res: MatchOutcome<Option<u8>, ()> = optional(&mut b, number_and_comma);
    assert_eq!(res, MatchOutcome::Complete(Some(1)));
    assert_eq!(&b[..], b"x");
    let res: MatchOutcome<Option<u8>, ()> = optional(&mut b, number_and_comma);
    assert_eq!(res, MatchOutcome::Complete(None));
    assert_eq!(&b[..], b"x");
    let mut b = buf(b"1");
    let res: MatchOutcome<Option<u8>, ()> = optional(&mut b, number_and_comma);
    assert_eq!(res, MatchOutcome::Pending);
    assert_eq!(&b[..], b"1");
}
