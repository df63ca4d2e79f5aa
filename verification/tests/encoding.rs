use http::header::{HeaderMap, HeaderValue, ACCEPT_ENCODING};

fn ae_hdrs(value: &'static str) -> HeaderMap {
    let mut h = HeaderMap::new();
    h.insert(ACCEPT_ENCODING, HeaderValue::from_static(value));
    h
}

#[test]
fn parse_qvalue() {
    assert_eq!(http_serve::parse_qvalue("0"), Ok(0));
    assert_eq!(http_serve::parse_qvalue("0."), Ok(0));
    assert_eq!(http_serve::parse_qvalue("0.0"), Ok(0));
    assert_eq!(http_serve::parse_qvalue("0.00"), Ok(0));
    assert_eq!(http_serve::parse_qvalue("0.000"), Ok(0));
    assert_eq!(http_serve::parse_qvalue("0.0000"), Err(()));
    assert_eq!(http_serve::parse_qvalue("0.2"), Ok(200));
    assert_eq!(http_serve::parse_qvalue("0.23"), Ok(230));
    assert_eq!(http_serve::parse_qvalue("0.234"), Ok(234));
    assert_eq!(http_serve::parse_qvalue("1"), Ok(1000));
    assert_eq!(http_serve::parse_qvalue("1."), Ok(1000));
    assert_eq!(http_serve::parse_qvalue("1.0"), Ok(1000));
    assert_eq!(http_serve::parse_qvalue("1.1"), Err(()));
    assert_eq!(http_serve::parse_qvalue("1.00"), Ok(1000));
    assert_eq!(http_serve::parse_qvalue("1.000"), Ok(1000));
    assert_eq!(http_serve::parse_qvalue("1.001"), Err(()));
    assert_eq!(http_serve::parse_qvalue("1.0000"), Err(()));
    assert_eq!(http_serve::parse_qvalue("2"), Err(()));
}

#[test]
fn parse_qvalue_edges() {
    assert_eq!(http_serve::parse_qvalue(""), Err(()));
    assert_eq!(http_serve::parse_qvalue("."), Err(()));
    assert_eq!(http_serve::parse_qvalue("00"), Err(()));
    assert_eq!(http_serve::parse_qvalue("0.+5"), Err(()));
    assert_eq!(http_serve::parse_qvalue("0.-5"), Err(()));
    assert_eq!(http_serve::parse_qvalue("0.5 "), Err(()));
    assert_eq!(http_serve::parse_qvalue("0.\u{e9}"), Err(()));
    assert_eq!(http_serve::parse_qvalue("0.999"), Ok(999));
    assert_eq!(http_serve::parse_qvalue("0.009"), Ok(9));
}

#[test]
fn should_gzip() {
    // "A request without an Accept-Encoding header field implies that the
    // user agent has no preferences regarding content-codings. Although
    // this allows the server to use any content-coding in a response, it
    // does not imply that the user agent will be able to correctly process
    // all encodings." Identity seems safer; don't gzip.
    assert!(!http_serve::should_gzip(&HeaderMap::new()));

    // "If the representation's content-coding is one of the
    // content-codings listed in the Accept-Encoding field, then it is
    // acceptable unless it is accompanied by a qvalue of 0.  (As
    // defined in Section 5.3.1, a qvalue of 0 means "not acceptable".)"
    assert!(http_serve::should_gzip(&ae_hdrs("gzip")));
    assert!(http_serve::should_gzip(&ae_hdrs("gzip;q=0.001")));
    assert!(!http_serve::should_gzip(&ae_hdrs("gzip;q=0")));

    // "An Accept-Encoding header field with a combined field-value that is
    // empty implies that the user agent does not want any content-coding in
    // response."
    assert!(!http_serve::should_gzip(&ae_hdrs("")));

    // "The asterisk "*" symbol in an Accept-Encoding field
    // matches any available content-coding not explicitly listed in the
    // header field."
    assert!(http_serve::should_gzip(&ae_hdrs("*")));
    assert!(!http_serve::should_gzip(&ae_hdrs("gzip;q=0, *")));
    assert!(http_serve::should_gzip(&ae_hdrs("identity=q=0, *")));

    // "If multiple content-codings are acceptable, then the acceptable
    // content-coding with the highest non-zero qvalue is preferred."
    assert!(http_serve::should_gzip(&ae_hdrs("identity;q=0.5, gzip;q=1.0")));
    assert!(!http_serve::should_gzip(&ae_hdrs("identity;q=1.0, gzip;q=0.5")));

    // "If an Accept-Encoding header field is present in a request
    // and none of the available representations for the response have a
    // content-coding that is listed as acceptable, the origin server SHOULD
    // send a response without any content-coding."
    assert!(!http_serve::should_gzip(&ae_hdrs("*;q=0")));
}

#[test]
fn should_gzip_edges() {
    // Whitespace is allowed around elements, codings and weights.
    assert!(http_serve::should_gzip(&ae_hdrs(" \tgzip \t; \tq=0.5 , br")));
    // The last mention counts.
    assert!(!http_serve::should_gzip(&ae_hdrs("gzip, gzip;q=0")));
    assert!(http_serve::should_gzip(&ae_hdrs("gzip;q=0, gzip")));
    // An element that cannot be read spoils the whole.
    assert!(!http_serve::should_gzip(&ae_hdrs("gzip, br;x=1")));
    assert!(!http_serve::should_gzip(&ae_hdrs("gzip, br;q=2")));
    assert!(!http_serve::should_gzip(&ae_hdrs("gzip;q=0.5;level=1")));
    // Names are compared as they are.
    assert!(!http_serve::should_gzip(&ae_hdrs("GZIP")));
    // The weight of a tie goes to gzip.
    assert!(http_serve::should_gzip(&ae_hdrs("identity;q=0.5, gzip;q=0.5")));
    // A value that is not visible ASCII is not read.
    let mut h = HeaderMap::new();
    h.insert(ACCEPT_ENCODING, HeaderValue::from_bytes(b"gzip, \xff").unwrap());
    assert!(!http_serve::should_gzip(&h));
    // Of several headers the first counts.
    let mut h = ae_hdrs("gzip");
    h.append(ACCEPT_ENCODING, HeaderValue::from_static("gzip;q=0"));
    assert!(http_serve::should_gzip(&h));
}

#[test]
fn every_weight_can_be_written() {
    for q in 0..=1000 {
        let text = format!("{}.{:03}", q / 1000, q % 1000);
        assert_eq!(http_serve::parse_qvalue(&text), Ok(q));
    }
}
