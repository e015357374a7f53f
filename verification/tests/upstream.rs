use hyper::header::{HeaderMap, HeaderName, HeaderValue};
use hyper::Uri;
use rustls::pki_types::ServerName;
use steam_accelerator::tls::{NullVerifier, SignatureScheme, ALPN};
use steam_accelerator::upstream::{
    decrypted_upstream, first_address, forward_headers, is_hop_header, server_name, upstream_head, upstream_uri,
    RequestError, BAD_HOST, DNS_NO_RESULT, UPSTREAM_PORT,
};

fn headers(fields: &[(&str, &str)]) -> HeaderMap {
    let mut map = HeaderMap::new();
    for (name, value) in fields {
        map.append(
            HeaderName::from_bytes(name.as_bytes()).unwrap(),
            HeaderValue::from_str(value).unwrap(),
        );
    }
    map
}

#[test]
fn hop_fields_are_known_in_any_case() {
    let hops = [
        "Host",
        "connection",
        "Keep-Alive",
        "proxy-connection",
        "Transfer-Encoding",
        "UPGRADE",
        "proxy-authorization",
        "TE",
        "trailer",
    ];
    for name in hops {
        assert!(is_hop_header(name));
    }
    assert!(!is_hop_header("accept"));
    assert!(!is_hop_header("trailers"));
    assert!(!is_hop_header(""));
}

#[test]
fn the_host_is_put_in_place_of_the_one_sent() {
    let sent = forward_headers(
        "github.com",
        &headers(&[("Host", "other"), ("Accept", "*/*"), ("Connection", "close")]),
    )
    .ok()
    .unwrap();
    assert_eq!(sent.len(), 2);
    assert_eq!(sent["host"], "github.com");
    assert_eq!(sent["accept"], "*/*");
}

#[test]
fn the_last_of_several_values_is_sent() {
    let several = headers(&[("Cookie", "a=1"), ("X", "y"), ("Cookie", "b=2")]);
    let sent = forward_headers("h", &several).ok().unwrap();
    let values: Vec<&HeaderValue> = sent.get_all("cookie").iter().collect();
    assert_eq!(values, vec!["b=2"]);
    assert_eq!(sent["x"], "y");
}

#[test]
fn a_host_that_is_no_value_is_refused() {
    assert!(matches!(
        forward_headers("a\nb", &HeaderMap::new()),
        Err(RequestError::Host(_))
    ));
    assert!(forward_headers("\u{e4}.org", &HeaderMap::new()).is_ok());
    assert!(forward_headers("", &HeaderMap::new()).is_ok());
}

#[test]
fn many_fields_fit() {
    let mut map = HeaderMap::new();
    for n in 0..6000 {
        let name = format!("x-{n}");
        map.insert(HeaderName::from_bytes(name.as_bytes()).unwrap(), HeaderValue::from(n));
    }
    let sent = forward_headers("h", &map).ok().unwrap();
    assert_eq!(sent.len(), 6001);
    assert_eq!(sent["x-5999"], "5999");
}

#[test]
fn too_many_fields_are_refused() {
    let mut map = HeaderMap::new();
    for n in 0..24576 {
        let name = format!("x-{n}");
        if map
            .try_insert(HeaderName::from_bytes(name.as_bytes()).unwrap(), HeaderValue::from(n))
            .is_err()
        {
            panic!("the map itself is full at {n}");
        }
    }
    assert!(matches!(forward_headers("h", &map), Err(RequestError::Headers(_))));
}

#[test]
fn addresses_are_made_of_host_and_path() {
    assert_eq!(upstream_uri("github.com", Some("/a?b")), "https://github.com/a?b");
    assert_eq!(upstream_uri("github.com", None), "https://github.com/");
}

#[test]
fn requests_carry_address_and_fields() {
    let uri = Uri::from_static("/login?next=%2F");
    let head = upstream_head("github.com", &uri, &headers(&[("te", "trailers")])).ok().unwrap();
    assert_eq!(head.uri, "https://github.com/login?next=%2F");
    assert_eq!(head.headers.len(), 1);
    assert_eq!(head.headers["host"], "github.com");
    let none = Uri::from_static("example.com:443");
    let root = upstream_head("github.com", &none, &HeaderMap::new()).ok().unwrap();
    assert_eq!(root.uri, "https://github.com/");
}

#[test]
fn hosts_that_make_no_address_are_refused() {
    let uri = Uri::from_static("/");
    assert!(matches!(
        upstream_head("a b", &uri, &HeaderMap::new()),
        Err(RequestError::Uri(_))
    ));
}

#[test]
fn the_first_address_is_taken() {
    assert_eq!(first_address(Some(1)), Ok(1));
    assert_eq!(first_address::<u8>(None), Err(DNS_NO_RESULT.to_string()));
    assert_eq!(DNS_NO_RESULT, "dns no result");
    assert_eq!(UPSTREAM_PORT, 443);
    assert_eq!(decrypted_upstream("github.com"), ("github.com".to_string(), 443));
}

#[test]
fn server_names_are_hosts_or_addresses() {
    assert!(matches!(server_name("github.com"), Ok(ServerName::DnsName(n)) if n.as_ref() == "github.com"));
    assert!(matches!(server_name("127.0.0.1"), Ok(ServerName::IpAddress(_))));
    assert_eq!(server_name("not a host"), Err(BAD_HOST.to_string()));
    assert_eq!(BAD_HOST, "bad host");
}

#[test]
fn schemes_have_the_codes_of_the_protocol() {
    let expected = [
        rustls::SignatureScheme::RSA_PKCS1_SHA256,
        rustls::SignatureScheme::RSA_PKCS1_SHA384,
        rustls::SignatureScheme::RSA_PKCS1_SHA512,
        rustls::SignatureScheme::RSA_PSS_SHA256,
        rustls::SignatureScheme::RSA_PSS_SHA384,
        rustls::SignatureScheme::RSA_PSS_SHA512,
        rustls::SignatureScheme::ECDSA_NISTP256_SHA256,
        rustls::SignatureScheme::ECDSA_NISTP384_SHA384,
        rustls::SignatureScheme::ED25519,
    ];
    let schemes = NullVerifier.supported_verify_schemes();
    let codes: Vec<rustls::SignatureScheme> =
        schemes.iter().map(|s| rustls::SignatureScheme::from(s.code())).collect();
    assert_eq!(codes, expected.to_vec());
    assert_eq!(SignatureScheme::Ed25519.code(), 0x0807);
    assert_eq!(ALPN, "h2");
}
