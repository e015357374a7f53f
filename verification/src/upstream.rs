//! Requests to upstream servers: the address and the header fields that they carry, and the
//! server name that a connection is made under.

use crate::text;
use hyper::header::{HeaderMap, HeaderName, HeaderValue, InvalidHeaderValue, MaxSizeReached};
use hyper::http::uri::InvalidUri;
use hyper::Uri;
use rustls::pki_types::ServerName;
use vstd::prelude::*;
use vstd::string::StringExecFns;

verus! {

/// The header fields of a message.
#[verifier::external_type_specification]
#[verifier::external_body]
#[verifier::reject_recursive_types(T)]
pub struct ExHeaderMap<T>(HeaderMap<T>);

/// The name of a header field.
#[verifier::external_type_specification]
#[verifier::external_body]
pub struct ExHeaderName(HeaderName);

/// The value of a header field.
#[verifier::external_type_specification]
#[verifier::external_body]
pub struct ExHeaderValue(HeaderValue);

/// Text that is no header value.
#[verifier::external_type_specification]
#[verifier::external_body]
pub struct ExInvalidHeaderValue(InvalidHeaderValue);

/// More header fields than a `HeaderMap` takes.
#[verifier::external_type_specification]
#[verifier::external_body]
pub struct ExMaxSizeReached(MaxSizeReached);

/// The address of a request.
#[verifier::external_type_specification]
#[verifier::external_body]
pub struct ExUri(Uri);

/// Text that is no address.
#[verifier::external_type_specification]
#[verifier::external_body]
pub struct ExInvalidUri(InvalidUri);

/// The name of a server in a TLS handshake.
#[verifier::external_type_specification]
#[verifier::external_body]
pub struct ExServerName<'a>(ServerName<'a>);

/// What a header map holds: for each field name, its values in order, at least one.
pub uninterp spec fn header_fields(m: HeaderMap) -> Map<Seq<char>, Seq<Seq<u8>>>;

/// The text of a field name.
pub uninterp spec fn name_text(name: HeaderName) -> Seq<char>;

/// The bytes of a field value.
pub uninterp spec fn value_bytes(value: HeaderValue) -> Seq<u8>;

/// A field as text and bytes.
pub open spec fn field_view(field: (HeaderName, HeaderValue)) -> (Seq<char>, Seq<u8>) {
    (name_text(field.0), value_bytes(field.1))
}

/// Fields as text and bytes.
pub open spec fn fields_view(list: Seq<(HeaderName, HeaderValue)>) -> Seq<(Seq<char>, Seq<u8>)> {
    Seq::new(list.len(), |i: int| field_view(list[i]))
}

/// The values that a list of fields gives to `name`, in order.
pub open spec fn values_of(list: Seq<(Seq<char>, Seq<u8>)>, name: Seq<char>) -> Seq<Seq<u8>>
    decreases list.len(),
{
    if list.len() == 0 {
        Seq::empty()
    } else if list.last().0 == name {
        values_of(list.drop_last(), name).push(list.last().1)
    } else {
        values_of(list.drop_last(), name)
    }
}

/// The list gives to every name the values that it has in `fields`, and no name that `fields`
/// holds is without a value.
pub open spec fn lists(
    list: Seq<(Seq<char>, Seq<u8>)>,
    fields: Map<Seq<char>, Seq<Seq<u8>>>,
) -> bool {
    &&& fields.dom().finite()
    &&& forall|name: Seq<char>| #[trigger]
        fields.contains_key(name) ==> fields[name].len() > 0 && values_of(list, name)
            == fields[name]
    &&& forall|name: Seq<char>|
        !fields.contains_key(name) ==> #[trigger] values_of(list, name).len() == 0
}

/// `HeaderName::as_str` gives the text of a field name.
pub assume_specification[ HeaderName::as_str ](name: &HeaderName) -> (r: &str)
    ensures
        r@ == name_text(*name),
;

/// Calls `HeaderMap::new`, which makes a map without fields.
#[verifier::external_body]
fn no_headers() -> (m: HeaderMap)
    ensures
        header_fields(m) == (Map::<Seq<char>, Seq<Seq<u8>>>::empty()),
{
    HeaderMap::new()
}

/// The name of the `Host` field, which is the constant `hyper::header::HOST`.
#[verifier::external_body]
fn host_name() -> (name: HeaderName)
    ensures
        name_text(name) == "host"@,
{
    hyper::header::HOST
}

/// Calls `HeaderMap::iter`, which visits every field once for each of its values and the values
/// of one name in order. Nothing is claimed of the order of different names.
#[verifier::external_body]
fn header_list(m: &HeaderMap) -> (list: Vec<(HeaderName, HeaderValue)>)
    ensures
        lists(fields_view(list@), header_fields(*m)),
{
    m.iter().map(|(name, value)| (name.clone(), value.clone())).collect()
}

/// The number of field names below which a `HeaderMap` always takes another one.
pub const HEADER_ROOM: usize = 6554;

/// Calls `HeaderMap::try_insert`, which makes the given value the only one of its name. It
/// fails, and leaves the fields as they are, only where the map holds at least `HEADER_ROOM`
/// names: it then outgrows the 32768 slots that its table can have.
#[verifier::external_body]
fn set_header(m: &mut HeaderMap, name: HeaderName, value: HeaderValue) -> (r: Result<
    Option<HeaderValue>,
    MaxSizeReached,
>)
    ensures
        match r {
            Ok(_) => header_fields(*final(m)) == header_fields(*old(m)).insert(
                name_text(name),
                seq![value_bytes(value)],
            ),
            Err(_) => header_fields(*final(m)) == header_fields(*old(m)) && header_fields(
                *old(m),
            ).dom().finite() && header_fields(*old(m)).dom().len() >= HEADER_ROOM,
        },
{
    m.try_insert(name, value)
}

/// `b` may stand in a header value: a tab, or anything from the space on but DEL.
pub open spec fn is_value_byte(b: u8) -> bool {
    b == 9 || (b >= 32 && b != 127)
}

/// `bytes` can be a header value.
pub open spec fn is_header_value(bytes: Seq<u8>) -> bool {
    forall|i: int| 0 <= i < bytes.len() ==> is_value_byte(#[trigger] bytes[i])
}

/// `HeaderValue::from_str` takes text without control characters other than the tab.
pub assume_specification[ HeaderValue::from_str ](src: &str) -> (r: Result<
    HeaderValue,
    InvalidHeaderValue,
>)
    ensures
        match r {
            Ok(value) => is_header_value(vstd::utf8::encode_utf8(src@)) && value_bytes(value)
                == vstd::utf8::encode_utf8(src@),
            Err(_) => !is_header_value(vstd::utf8::encode_utf8(src@)),
        },
;

/// The address that `Uri::try_from` reads in a text.
pub uninterp spec fn parsed_uri(address: Seq<char>) -> Option<Uri>;

/// Calls `Uri::try_from`. Which texts are addresses, and which address each one is, depends on
/// the text alone.
#[verifier::external_body]
fn parse_uri(address: String) -> (r: Result<Uri, InvalidUri>)
    ensures
        match r {
            Ok(uri) => parsed_uri(address@) == Some(uri),
            Err(_) => parsed_uri(address@) is None,
        },
{
    Uri::try_from(address)
}

/// The path and query that `Uri::path_and_query` finds in an address.
pub uninterp spec fn uri_path(uri: Uri) -> Option<Seq<char>>;

/// Calls `Uri::path_and_query`, which depends on the address alone.
#[verifier::external_body]
fn path_and_query(uri: &Uri) -> (r: Option<&str>)
    ensures
        match r {
            Some(path) => uri_path(*uri) == Some(path@),
            None => uri_path(*uri) is None,
        },
{
    uri.path_and_query().map(|p| p.as_str())
}

/// The address that a request for `path` is sent to: always over HTTPS, and the root where no
/// path is given.
pub open spec fn upstream_address(host: Seq<char>, path: Option<Seq<char>>) -> Seq<char> {
    "https://"@ + host + (match path {
        Some(p) => p,
        None => "/"@,
    })
}

/// The address that a request for `path` is sent to.
pub fn upstream_uri(host: &str, path: Option<&str>) -> (r: String)
    ensures
        r@ == upstream_address(
            host@,
            match path {
                Some(p) => Some(p@),
                None => None,
            },
        ),
{
    let mut r = "https://".to_owned();
    r.append(host);
    match path {
        Some(p) => r.append(p),
        None => r.append("/"),
    }
    r
}

/// The fields, in lower case, that belong to one connection and are not sent on.
pub open spec fn hop_names() -> Seq<Seq<char>> {
    seq![
        "host"@,
        "connection"@,
        "keep-alive"@,
        "proxy-connection"@,
        "transfer-encoding"@,
        "upgrade"@,
        "proxy-authorization"@,
        "te"@,
        "trailer"@,
    ]
}

/// A field of this name is not sent on.
pub open spec fn is_hop(name: Seq<char>) -> bool {
    hop_names().contains(text::ascii_lowered(name))
}

/// Whether a field of this name belongs to one connection and is not sent on.
pub fn is_hop_header(name: &str) -> (b: bool)
    ensures
        b == is_hop(name@),
{
    let cs = text::chars_of(name);
    let low = text::text_of(text::to_ascii_lowercase(cs.as_slice()).as_slice());
    let hops: [&str; 9] = [
        "host",
        "connection",
        "keep-alive",
        "proxy-connection",
        "transfer-encoding",
        "upgrade",
        "proxy-authorization",
        "te",
        "trailer",
    ];
    let mut k: usize = 0;
    while k < 9
        invariant
            k <= 9,
            forall|i: int| 0 <= i < 9 ==> (#[trigger] hops@[i])@ == hop_names()[i],
            low@ == text::ascii_lowered(name@),
            forall|i: int| 0 <= i < k ==> #[trigger] hop_names()[i] != low@,
        decreases 9 - k,
    {
        assert(hops@[k as int]@ == hop_names()[k as int]);
        if low == hops[k].to_owned() {
            assert(hop_names()[k as int] == low@);
            return true;
        }
        k += 1;
    }
    false
}

/// The fields that a request is sent on with: `Host` names the server, the fields of the client's
/// connection are dropped, and of every other field the last value is kept.
pub open spec fn forwarded_fields(
    fields: Map<Seq<char>, Seq<Seq<u8>>>,
    host: Seq<char>,
) -> Map<Seq<char>, Seq<Seq<u8>>> {
    Map::new(
        |name: Seq<char>| name == "host"@ || (fields.contains_key(name) && !is_hop(name)),
        |name: Seq<char>|
            if name == "host"@ {
                seq![vstd::utf8::encode_utf8(host)]
            } else {
                seq![fields[name].last()]
            },
    )
}

/// The fields sent on after the first `k` of the client's have been looked at.
spec fn sent_so_far(
    sent: Map<Seq<char>, Seq<Seq<u8>>>,
    list: Seq<(Seq<char>, Seq<u8>)>,
    host: Seq<char>,
) -> bool {
    forall|name: Seq<char>|
        {
            &&& #[trigger] sent.contains_key(name) <==> (name == "host"@ || (!is_hop(name)
                && values_of(list, name).len() > 0))
            &&& sent.contains_key(name) ==> sent[name] == (if name == "host"@ {
                seq![vstd::utf8::encode_utf8(host)]
            } else {
                seq![values_of(list, name).last()]
            })
        }
}

/// The name of the `Host` field is not sent on from the client.
proof fn lemma_host_is_hop()
    ensures
        is_hop("host"@),
{
    reveal_strlit("host");
    assert(text::ascii_lowered("host"@) =~= "host"@);
    assert(hop_names()[0] == "host"@);
}

/// A name that has a value in part of a list has one in all of it.
proof fn lemma_values_grow(list: Seq<(Seq<char>, Seq<u8>)>, k: int, name: Seq<char>)
    requires
        0 <= k <= list.len(),
    ensures
        values_of(list.take(k), name).len() <= values_of(list, name).len(),
    decreases list.len(),
{
    if k < list.len() {
        assert(list.drop_last().take(k) =~= list.take(k));
        lemma_values_grow(list.drop_last(), k, name);
    } else {
        assert(list.take(k) =~= list);
    }
}

/// Besides `Host`, no field is sent on that the client did not send.
proof fn lemma_few_sent(
    sent: Map<Seq<char>, Seq<Seq<u8>>>,
    list: Seq<(Seq<char>, Seq<u8>)>,
    k: int,
    fields: Map<Seq<char>, Seq<Seq<u8>>>,
    host: Seq<char>,
)
    requires
        0 <= k <= list.len(),
        lists(list, fields),
        sent_so_far(sent, list.take(k), host),
    ensures
        sent.dom().len() <= fields.dom().len() + 1,
{
    assert forall|name: Seq<char>| sent.dom().contains(name) implies fields.dom().insert(
        "host"@,
    ).contains(name) by {
        assert(sent.contains_key(name));
        lemma_values_grow(list, k, name);
    }
    vstd::set_lib::lemma_len_subset(sent.dom(), fields.dom().insert("host"@));
}

/// Why a request cannot be sent on.
pub enum RequestError {
    /// Its address is not valid.
    Uri(InvalidUri),
    /// The host cannot be named in a header field.
    Host(InvalidHeaderValue),
    /// It has too many header fields.
    Headers(MaxSizeReached),
}

/// The fields that a request is sent on with. Only a request with about as many different
/// fields as a `HeaderMap` takes can fail for that.
pub fn forward_headers(host: &str, headers: &HeaderMap) -> (r: Result<HeaderMap, RequestError>)
    ensures
        match r {
            Ok(sent) => is_header_value(vstd::utf8::encode_utf8(host@)) && header_fields(sent)
                == forwarded_fields(header_fields(*headers), host@),
            Err(RequestError::Host(_)) => !is_header_value(vstd::utf8::encode_utf8(host@)),
            Err(RequestError::Headers(_)) => is_header_value(vstd::utf8::encode_utf8(host@))
                && header_fields(*headers).dom().len() >= HEADER_ROOM - 1,
            Err(RequestError::Uri(_)) => false,
        },
{
    let value = match HeaderValue::from_str(host) {
        Ok(value) => value,
        Err(e) => return Err(RequestError::Host(e)),
    };
    let list = header_list(headers);
    let ghost all = fields_view(list@);
    let ghost fields = header_fields(*headers);
    let mut sent = no_headers();
    if let Err(e) = set_header(&mut sent, host_name(), value) {
        assert(header_fields(sent).dom() =~= Set::<Seq<char>>::empty());
        return Err(RequestError::Headers(e));
    }
    let ghost entries = list@;
    assert(sent_so_far(header_fields(sent), all.take(0), host@));
    for field in it: list.into_iter()
        invariant
            it.seq() == entries,
            all == fields_view(entries),
            fields == header_fields(*headers),
            lists(all, fields),
            is_header_value(vstd::utf8::encode_utf8(host@)),
            sent_so_far(header_fields(sent), all.take(it.index()), host@),
    {
        let ghost seen = all.take(it.index());
        let ghost next = all.take(it.index() + 1);
        assert(next.drop_last() =~= seen);
        assert(next.last() == field_view(field));
        let ghost before = header_fields(sent);
        let (name, value) = field;
        proof {
            lemma_host_is_hop();
        }
        if !is_hop_header(name.as_str()) {
            if let Err(e) = set_header(&mut sent, name, value) {
                proof {
                    lemma_few_sent(before, all, it.index(), fields, host@);
                }
                return Err(RequestError::Headers(e));
            }
        }
        assert(sent_so_far(header_fields(sent), next, host@));
    }
    assert(all.take(all.len() as int) =~= all);
    assert(header_fields(sent) =~= forwarded_fields(fields, host@));
    Ok(sent)
}

/// What goes ahead of the body of a request that is sent on.
pub struct UpstreamHead {
    pub uri: Uri,
    pub headers: HeaderMap,
}

/// Makes what goes ahead of the body of a request to `host`, from the address and the header
/// fields that the client sent.
pub fn upstream_head(host: &str, uri: &Uri, headers: &HeaderMap) -> (r: Result<
    UpstreamHead,
    RequestError,
>)
    ensures
        ({
            let address = parsed_uri(upstream_address(host@, uri_path(*uri)));
            let host_ok = is_header_value(vstd::utf8::encode_utf8(host@));
            match r {
                Ok(head) => address == Some(head.uri) && host_ok && header_fields(head.headers)
                    == forwarded_fields(header_fields(*headers), host@),
                Err(RequestError::Uri(_)) => address is None,
                Err(RequestError::Host(_)) => address is Some && !host_ok,
                Err(RequestError::Headers(_)) => address is Some && host_ok && header_fields(
                    *headers,
                ).dom().len() >= HEADER_ROOM - 1,
            }
        }),
{
    let address = upstream_uri(host, path_and_query(uri));
    let parsed = match parse_uri(address) {
        Ok(parsed) => parsed,
        Err(e) => return Err(RequestError::Uri(e)),
    };
    match forward_headers(host, headers) {
        Ok(sent) => Ok(UpstreamHead { uri: parsed, headers: sent }),
        Err(e) => Err(e),
    }
}

/// No field that belongs to the client's own connection reaches the upstream, but for the
/// `Host` field, which then names the upstream alone.
pub proof fn law_no_hop_field_is_forwarded(
    fields: Map<Seq<char>, Seq<Seq<u8>>>,
    host: Seq<char>,
    name: Seq<char>,
)
    requires
        is_hop(name),
        forwarded_fields(fields, host).contains_key(name),
    ensures
        name == "host"@,
        forwarded_fields(fields, host)[name] == seq![vstd::utf8::encode_utf8(host)],
{
}

/// Every field that does not belong to the client's own connection reaches the upstream, once.
pub proof fn law_other_fields_are_forwarded(
    fields: Map<Seq<char>, Seq<Seq<u8>>>,
    host: Seq<char>,
    name: Seq<char>,
)
    requires
        fields.contains_key(name),
        !is_hop(name),
    ensures
        forwarded_fields(fields, host).contains_key(name),
        forwarded_fields(fields, host)[name] == seq![fields[name].last()],
{
    lemma_host_is_hop();
}

/// The port that upstream servers are reached at.
pub const UPSTREAM_PORT: u16 = 443;

/// Where the decrypted traffic of `host` goes: to the host itself, whatever routes there are.
pub fn decrypted_upstream(host: &str) -> (r: (String, u16))
    ensures
        (r.0@, r.1) == (host@, UPSTREAM_PORT),
{
    (host.to_owned(), UPSTREAM_PORT)
}

/// What is reported where a host has no address.
pub const DNS_NO_RESULT: &'static str = "dns no result";

/// What is reported where a host cannot be the name of a server.
pub const BAD_HOST: &'static str = "bad host";

/// The first address that a host resolved to.
pub fn first_address<A>(found: Option<A>) -> (r: Result<A, String>)
    ensures
        match found {
            Some(a) => r == Ok::<A, String>(a),
            None => r matches Err(e) && e@ == DNS_NO_RESULT@,
        },
{
    match found {
        Some(a) => Ok(a),
        None => Err(DNS_NO_RESULT.to_owned()),
    }
}

/// The server name that `ServerName::try_from` reads in a text.
pub uninterp spec fn parsed_server_name(host: Seq<char>) -> Option<ServerName<'static>>;

/// Calls `ServerName::try_from`. Which texts are names of servers, and which name each one is,
/// depends on the text alone.
#[verifier::external_body]
fn parse_server_name(host: String) -> (r: Option<ServerName<'static>>)
    ensures
        r == parsed_server_name(host@),
{
    ServerName::try_from(host).ok()
}

/// The name under which a TLS connection to `host` is made.
pub fn server_name(host: &str) -> (r: Result<ServerName<'static>, String>)
    ensures
        match parsed_server_name(host@) {
            Some(name) => r == Ok::<ServerName<'static>, String>(name),
            None => r matches Err(e) && e@ == BAD_HOST@,
        },
{
    match parse_server_name(host.to_owned()) {
        Some(name) => Ok(name),
        None => Err(BAD_HOST.to_owned()),
    }
}

} // verus!
