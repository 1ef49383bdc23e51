//! Request authentication: four credential schemes, tried in a fixed order,
//! with AWS Signature Version 4 verified in full.
use vstd::prelude::*;
use vstd::string::StringSliceAdditionalSpecFns;
use crate::bytes::{
    ascii_lower, bytes_eq, has_prefix, to_ascii_lower, lemma_split_cut, lemma_split_last, lemma_split_list_cut,
    lemma_split_list_last, push_all, split_bytes, split_comma_space, split_list, split_on,
    split_once, split_once_bytes, starts_with, tail, trim, trim_blanks,
};
use crate::digest::{hex_encode, hex_of, hmac_sha256, hmac_sha256_of, sha256, sha256_of};
use crate::sort::{sort_by_key, sort_seq, views, lemma_views_sort};

verus! {

pub const LF: u8 = 0x0a;
pub const COLON: u8 = 0x3a;
pub const SLASH: u8 = 0x2f;
pub const SEMICOLON: u8 = 0x3b;
pub const AMPERSAND: u8 = 0x26;
pub const EQUALS: u8 = 0x3d;

/// The configured access key, secret key and bucket name.
pub struct Credentials {
    pub access_key: Vec<u8>,
    pub secret_key: Vec<u8>,
    pub bucket_name: Vec<u8>,
}

/// One request header: its name, in lower case, and its raw value.
pub struct Header {
    pub name: Vec<u8>,
    pub value: Vec<u8>,
}

/// A header value that reads as text: visible ASCII and tabs only.
pub open spec fn is_text(v: Seq<u8>) -> bool {
    forall|i: int| 0 <= i < v.len() ==> (0x20 <= #[trigger] v[i] < 0x7f || v[i] == 0x09)
}

/// The value of the first header named `name`.
pub open spec fn header_value(hs: Seq<Header>, name: Seq<u8>) -> Option<Seq<u8>>
    decreases hs.len(),
{
    if hs.len() == 0 {
        None
    } else if hs[0].name@ == name {
        Some(hs[0].value@)
    } else {
        header_value(hs.drop_first(), name)
    }
}

/// The value of the first header named `name`, where it reads as text.
pub open spec fn text_header(hs: Seq<Header>, name: Seq<u8>) -> Option<Seq<u8>> {
    match header_value(hs, name) {
        Some(v) => if is_text(v) { Some(v) } else { None },
        None => None,
    }
}

/// The value after a leading `Bearer `, if any, as an access and a secret
/// key: exactly one colon with a non-empty part on each side.
pub open spec fn simple_pair(a: Seq<u8>) -> Option<(Seq<u8>, Seq<u8>)> {
    let bearer = "Bearer ".spec_bytes();
    let b = if starts_with(a, bearer) { a.subrange(bearer.len() as int, a.len() as int) } else { a };
    let parts = split_on(b, COLON);
    if parts.len() == 2 && parts[0].len() > 0 && parts[1].len() > 0 {
        Some((parts[0], parts[1]))
    } else {
        None
    }
}

/// The query string holds the pair `key=value` among its `&`-separated pairs.
pub open spec fn query_has(query: Seq<u8>, key: Seq<u8>, value: Seq<u8>) -> bool {
    exists|j: int| 0 <= j < split_on(query, AMPERSAND).len()
        && #[trigger] split_once(split_on(query, AMPERSAND)[j], EQUALS) == Some((key, value))
}

/// The query string carries both configured keys.
pub open spec fn query_ok(query: Seq<u8>, c: Credentials) -> bool {
    query_has(query, "access_key".spec_bytes(), c.access_key@)
        && query_has(query, "secret_key".spec_bytes(), c.secret_key@)
}

/// The value of the last directive that starts with `name`, without `name`;
/// empty where none does.
pub open spec fn directive(parts: Seq<Seq<u8>>, name: Seq<u8>) -> Seq<u8>
    decreases parts.len(),
{
    if parts.len() == 0 {
        Seq::empty()
    } else if starts_with(parts.last(), name) {
        parts.last().subrange(name.len() as int, parts.last().len() as int)
    } else {
        directive(parts.drop_last(), name)
    }
}

/// The canonical line of one signed header: `name:value\n` with the value
/// trimmed (empty where it is not text); nothing where the header is absent.
/// Names are matched without regard to ASCII case.
pub open spec fn header_line(name: Seq<u8>, hs: Seq<Header>) -> Seq<u8> {
    match header_value(hs, ascii_lower(name)) {
        Some(v) => name + seq![COLON] + (if is_text(v) { trim(v) } else { Seq::empty() }) + seq![LF],
        None => Seq::empty(),
    }
}

/// The canonical lines of the signed headers `names`, in that order.
pub open spec fn canonical_headers(names: Seq<Seq<u8>>, hs: Seq<Header>) -> Seq<u8>
    decreases names.len(),
{
    if names.len() == 0 {
        Seq::empty()
    } else {
        canonical_headers(names.drop_last(), hs) + header_line(names.last(), hs)
    }
}

/// The canonical request: method, path, raw query, canonical headers of the
/// sorted signed header names, the signed header list and the payload hash,
/// joined by newlines.
pub open spec fn canonical_request(
    method: Seq<u8>,
    path: Seq<u8>,
    query: Seq<u8>,
    hs: Seq<Header>,
    signed: Seq<u8>,
    payload: Seq<u8>,
) -> Seq<u8> {
    method + seq![LF] + path + seq![LF] + query + seq![LF]
        + canonical_headers(sort_seq(split_on(signed, SEMICOLON)), hs) + seq![LF]
        + signed + seq![LF] + payload
}

/// The credential scope `date/region/service/aws4_request`.
pub open spec fn scope(date: Seq<u8>, region: Seq<u8>, service: Seq<u8>) -> Seq<u8> {
    date + seq![SLASH] + region + seq![SLASH] + service + seq![SLASH] + "aws4_request".spec_bytes()
}

/// The string to sign for a request whose canonical form is `creq`.
pub open spec fn string_to_sign(
    amz_date: Seq<u8>,
    date: Seq<u8>,
    region: Seq<u8>,
    service: Seq<u8>,
    creq: Seq<u8>,
) -> Seq<u8> {
    "AWS4-HMAC-SHA256".spec_bytes() + seq![LF] + amz_date + seq![LF] + scope(date, region, service)
        + seq![LF] + hex_of(sha256_of(creq))
}

/// The signing key: the secret chained through date, region, service and
/// the terminator.
pub open spec fn signing_key(secret: Seq<u8>, date: Seq<u8>, region: Seq<u8>, service: Seq<u8>) -> Seq<u8> {
    let k_date = hmac_sha256_of("AWS4".spec_bytes() + secret, date);
    let k_region = hmac_sha256_of(k_date, region);
    let k_service = hmac_sha256_of(k_region, service);
    hmac_sha256_of(k_service, "aws4_request".spec_bytes())
}

/// The hex signature of `sts` for the given secret and scope.
pub open spec fn signature_of(
    secret: Seq<u8>,
    date: Seq<u8>,
    region: Seq<u8>,
    service: Seq<u8>,
    sts: Seq<u8>,
) -> Seq<u8> {
    hex_of(hmac_sha256_of(signing_key(secret, date, region, service), sts))
}

/// The payload hash header, `UNSIGNED-PAYLOAD` where absent.
pub open spec fn payload_hash(hs: Seq<Header>) -> Seq<u8> {
    match text_header(hs, "x-amz-content-sha256".spec_bytes()) {
        Some(v) => v,
        None => "UNSIGNED-PAYLOAD".spec_bytes(),
    }
}

/// The request date header, empty where absent.
pub open spec fn amz_date(hs: Seq<Header>) -> Seq<u8> {
    match text_header(hs, "x-amz-date".spec_bytes()) {
        Some(v) => v,
        None => Seq::empty(),
    }
}

/// The directives of a SigV4 authorization value.
pub open spec fn sigv4_directives(auth: Seq<u8>) -> Seq<Seq<u8>> {
    let prefix = "AWS4-HMAC-SHA256 ".spec_bytes();
    split_list(if starts_with(auth, prefix) { auth.subrange(prefix.len() as int, auth.len() as int) } else { Seq::empty() })
}

/// A SigV4 authorization value is valid for the request: its credential has
/// five parts, names the configured access key, and its signature is the one
/// computed over the request.
pub open spec fn sigv4_ok(
    auth: Seq<u8>,
    hs: Seq<Header>,
    method: Seq<u8>,
    path: Seq<u8>,
    query: Seq<u8>,
    c: Credentials,
) -> bool {
    let parts = sigv4_directives(auth);
    let cred = split_on(directive(parts, "Credential=".spec_bytes()), SLASH);
    let signed = directive(parts, "SignedHeaders=".spec_bytes());
    let sig = directive(parts, "Signature=".spec_bytes());
    &&& cred.len() == 5
    &&& cred[0] == c.access_key@
    &&& sig == signature_of(
        c.secret_key@,
        cred[1],
        cred[2],
        cred[3],
        string_to_sign(amz_date(hs), cred[1], cred[2], cred[3],
            canonical_request(method, path, query, hs, signed, payload_hash(hs))),
    )
}

/// The credential scheme a request attempts.
#[derive(PartialEq, Eq, Structural, Clone, Copy, Debug)]
pub enum AuthScheme {
    /// Both the access-key and the secret-key header.
    KeyHeaders,
    /// An `access:secret` authorization, with or without `Bearer `.
    SimplePair,
    /// An `AWS4-HMAC-SHA256` authorization.
    SigV4,
    /// None of the above: the query parameters decide.
    QueryParams,
}

/// The first scheme, in order, whose inputs the request carries.
pub open spec fn scheme_of(hs: Seq<Header>) -> AuthScheme {
    let auth = text_header(hs, "authorization".spec_bytes());
    if text_header(hs, "x-amz-access-key".spec_bytes()) is Some
        && text_header(hs, "x-amz-secret-key".spec_bytes()) is Some {
        AuthScheme::KeyHeaders
    } else if auth is Some && simple_pair(auth->0) is Some {
        AuthScheme::SimplePair
    } else if auth is Some && starts_with(auth->0, "AWS4-HMAC-SHA256".spec_bytes()) {
        AuthScheme::SigV4
    } else {
        AuthScheme::QueryParams
    }
}

/// The request is authorized by the first scheme it attempts: the key header
/// pair, a simple `access:secret` authorization, a SigV4 authorization, or
/// else the query parameters.
pub open spec fn auth_ok(
    hs: Seq<Header>,
    query: Seq<u8>,
    method: Seq<u8>,
    path: Seq<u8>,
    c: Credentials,
) -> bool {
    let auth = text_header(hs, "authorization".spec_bytes());
    match scheme_of(hs) {
        AuthScheme::KeyHeaders => text_header(hs, "x-amz-access-key".spec_bytes()) == Some(c.access_key@)
            && text_header(hs, "x-amz-secret-key".spec_bytes()) == Some(c.secret_key@),
        AuthScheme::SimplePair => simple_pair(auth->0) == Some((c.access_key@, c.secret_key@)),
        AuthScheme::SigV4 => sigv4_ok(auth->0, hs, method, path, query, c),
        AuthScheme::QueryParams => query_ok(query, c),
    }
}

/// The index of the first header named `name`.
fn find_header(hs: &Vec<Header>, name: &[u8]) -> (r: Option<usize>)
    ensures
        match r {
            Some(i) => i < hs@.len() && header_value(hs@, name@) == Some(hs@[i as int].value@),
            None => header_value(hs@, name@) is None,
        },
{
    let mut i: usize = 0;
    assert(hs@.subrange(0, hs@.len() as int) == hs@);
    while i < hs.len()
        invariant
            0 <= i <= hs@.len(),
            header_value(hs@, name@) == header_value(hs@.subrange(i as int, hs@.len() as int), name@),
        decreases hs@.len() - i,
    {
        assert(hs@.subrange(i as int, hs@.len() as int).drop_first()
            == hs@.subrange(i + 1, hs@.len() as int));
        if bytes_eq(hs[i].name.as_slice(), name) {
            return Some(i);
        }
        i = i + 1;
    }
    None
}

/// Whether `v` holds only visible ASCII and tabs.
pub fn value_is_text(v: &[u8]) -> (r: bool)
    ensures
        r == is_text(v@),
{
    let mut i: usize = 0;
    while i < v.len()
        invariant
            0 <= i <= v@.len(),
            forall|j: int| 0 <= j < i ==> (0x20 <= #[trigger] v@[j] < 0x7f || v@[j] == 0x09),
        decreases v@.len() - i,
    {
        if !((0x20 <= v[i] && v[i] < 0x7f) || v[i] == 0x09) {
            return false;
        }
        i = i + 1;
    }
    true
}

/// The value of the first header named `name`, where it reads as text.
pub fn header_text(hs: &Vec<Header>, name: &[u8]) -> (r: Option<Vec<u8>>)
    ensures
        match r {
            Some(v) => text_header(hs@, name@) == Some(v@),
            None => text_header(hs@, name@) is None,
        },
{
    match find_header(hs, name) {
        Some(i) => {
            let v = hs[i].value.as_slice();
            if value_is_text(v) {
                Some(tail(v, 0))
            } else {
                None
            }
        },
        None => None,
    }
}

/// The value of the last part that starts with `name`, without `name`.
fn find_directive(parts: &Vec<Vec<u8>>, name: &[u8]) -> (r: Vec<u8>)
    ensures
        r@ == directive(views(parts@), name@),
{
    let mut found: Vec<u8> = Vec::new();
    let mut i: usize = 0;
    while i < parts.len()
        invariant
            0 <= i <= parts@.len(),
            found@ == directive(views(parts@).subrange(0, i as int), name@),
        decreases parts@.len() - i,
    {
        let p = parts[i].as_slice();
        proof {
            let q = views(parts@).subrange(0, i + 1);
            assert(q.drop_last() == views(parts@).subrange(0, i as int));
            assert(q.last() == p@);
        }
        if has_prefix(p, name) {
            found = tail(p, name.len());
        }
        i = i + 1;
    }
    assert(views(parts@).subrange(0, parts@.len() as int) == views(parts@));
    found
}

/// The canonical header lines of `names`, in order.
fn build_canonical_headers(names: &Vec<Vec<u8>>, hs: &Vec<Header>) -> (r: Vec<u8>)
    ensures
        r@ == canonical_headers(views(names@), hs@),
{
    let mut out: Vec<u8> = Vec::new();
    let mut i: usize = 0;
    while i < names.len()
        invariant
            0 <= i <= names@.len(),
            out@ == canonical_headers(views(names@).subrange(0, i as int), hs@),
        decreases names@.len() - i,
    {
        let name = names[i].as_slice();
        proof {
            let q = views(names@).subrange(0, i + 1);
            assert(q.drop_last() == views(names@).subrange(0, i as int));
            assert(q.last() == name@);
        }
        let lowered = to_ascii_lower(name);
        match find_header(hs, lowered.as_slice()) {
            Some(k) => {
                push_all(&mut out, name);
                out.push(COLON);
                let v = hs[k].value.as_slice();
                if value_is_text(v) {
                    let t = trim_blanks(v);
                    push_all(&mut out, t.as_slice());
                }
                out.push(LF);
            },
            None => {},
        }
        i = i + 1;
    }
    assert(views(names@).subrange(0, names@.len() as int) == views(names@));
    out
}

/// Verifies an AWS Signature Version 4 authorization value against the
/// request and the configured credentials.
pub fn verify_aws_v4_signature(
    auth_header: &[u8],
    headers: &Vec<Header>,
    method: &[u8],
    uri_path: &[u8],
    query: &[u8],
    creds: &Credentials,
) -> (r: bool)
    ensures
        r == sigv4_ok(auth_header@, headers@, method@, uri_path@, query@, *creds),
{
    let payload = match header_text(headers, "x-amz-content-sha256".as_bytes()) {
        Some(v) => v,
        None => tail("UNSIGNED-PAYLOAD".as_bytes(), 0),
    };
    let date_header = match header_text(headers, "x-amz-date".as_bytes()) {
        Some(v) => v,
        None => Vec::new(),
    };
    let prefix = "AWS4-HMAC-SHA256 ".as_bytes();
    let rest = if has_prefix(auth_header, prefix) {
        tail(auth_header, prefix.len())
    } else {
        Vec::new()
    };
    let parts = split_comma_space(rest.as_slice());
    assert(views(parts@) == sigv4_directives(auth_header@));
    let credential = find_directive(&parts, "Credential=".as_bytes());
    let signed = find_directive(&parts, "SignedHeaders=".as_bytes());
    let signature = find_directive(&parts, "Signature=".as_bytes());

    let cred = split_bytes(credential.as_slice(), SLASH);
    let ghost cv = views(cred@);
    assert(cv == split_on(credential@, SLASH));
    if cred.len() != 5 {
        return false;
    }
    assert(cv[0] == cred@[0]@ && cv[1] == cred@[1]@ && cv[2] == cred@[2]@ && cv[3] == cred@[3]@);
    if !bytes_eq(cred[0].as_slice(), creds.access_key.as_slice()) {
        return false;
    }
    let date = cred[1].as_slice();
    let region = cred[2].as_slice();
    let service = cred[3].as_slice();

    let names = split_bytes(signed.as_slice(), SEMICOLON);
    let sorted = sort_by_key(names);
    proof {
        lemma_views_sort(names@);
    }
    let lines = build_canonical_headers(&sorted, headers);

    let mut creq: Vec<u8> = Vec::new();
    push_all(&mut creq, method);
    creq.push(LF);
    push_all(&mut creq, uri_path);
    creq.push(LF);
    push_all(&mut creq, query);
    creq.push(LF);
    push_all(&mut creq, lines.as_slice());
    creq.push(LF);
    push_all(&mut creq, signed.as_slice());
    creq.push(LF);
    push_all(&mut creq, payload.as_slice());
    assert(creq@ == canonical_request(method@, uri_path@, query@, headers@, signed@, payload_hash(headers@)));

    let creq_hash = hex_encode(sha256(creq.as_slice()).as_slice());
    let terminator = "aws4_request".as_bytes();
    let mut sts: Vec<u8> = Vec::new();
    push_all(&mut sts, "AWS4-HMAC-SHA256".as_bytes());
    sts.push(LF);
    push_all(&mut sts, date_header.as_slice());
    sts.push(LF);
    push_all(&mut sts, date);
    sts.push(SLASH);
    push_all(&mut sts, region);
    sts.push(SLASH);
    push_all(&mut sts, service);
    sts.push(SLASH);
    push_all(&mut sts, terminator);
    sts.push(LF);
    push_all(&mut sts, creq_hash.as_slice());
    assert(sts@ == string_to_sign(amz_date(headers@), date@, region@, service@, creq@));

    let mut seed: Vec<u8> = Vec::new();
    push_all(&mut seed, "AWS4".as_bytes());
    push_all(&mut seed, creds.secret_key.as_slice());
    let k_date = hmac_sha256(seed.as_slice(), date);
    let k_region = hmac_sha256(k_date.as_slice(), region);
    let k_service = hmac_sha256(k_region.as_slice(), service);
    let k_signing = hmac_sha256(k_service.as_slice(), terminator);
    let computed = hex_encode(hmac_sha256(k_signing.as_slice(), sts.as_slice()).as_slice());
    bytes_eq(computed.as_slice(), signature.as_slice())
}

/// Parses a simple `access:secret` authorization value, after an optional
/// `Bearer ` prefix.
pub fn parse_simple_pair(auth: &[u8]) -> (r: Option<(Vec<u8>, Vec<u8>)>)
    ensures
        match r {
            Some((a, b)) => simple_pair(auth@) == Some((a@, b@)),
            None => simple_pair(auth@) is None,
        },
{
    let bearer = "Bearer ".as_bytes();
    let body = if has_prefix(auth, bearer) {
        tail(auth, bearer.len())
    } else {
        assert(auth@.subrange(0, auth@.len() as int) == auth@);
        tail(auth, 0)
    };
    let mut parts = split_bytes(body.as_slice(), COLON);
    let ghost pv = views(parts@);
    assert(pv == split_on(body@, COLON));
    if parts.len() == 2 && parts[0].len() > 0 && parts[1].len() > 0 {
        assert(pv[0] == parts@[0]@ && pv[1] == parts@[1]@);
        let ghost p0 = parts@[0];
        let secret = parts.pop().unwrap();
        assert(parts@ == seq![p0]);
        let access = parts.pop().unwrap();
        assert(access == p0);
        Some((access, secret))
    } else {
        None
    }
}

/// Whether the query string carries `access_key` and `secret_key` pairs that
/// equal the configured keys.
pub fn query_params_match(query: &[u8], creds: &Credentials) -> (r: bool)
    ensures
        r == query_ok(query@, *creds),
{
    let pairs = split_bytes(query, AMPERSAND);
    let ghost pv = views(pairs@);
    assert(pv == split_on(query@, AMPERSAND));
    let ak = "access_key".as_bytes();
    let sk = "secret_key".as_bytes();
    let mut has_access = false;
    let mut has_secret = false;
    let mut i: usize = 0;
    while i < pairs.len()
        invariant
            0 <= i <= pairs@.len(),
            pv == views(pairs@),
            pv == split_on(query@, AMPERSAND),
            ak@ == "access_key".spec_bytes(),
            sk@ == "secret_key".spec_bytes(),
            has_access == exists|j: int| 0 <= j < i && #[trigger] split_once(pv[j], EQUALS) == Some((ak@, creds.access_key@)),
            has_secret == exists|j: int| 0 <= j < i && #[trigger] split_once(pv[j], EQUALS) == Some((sk@, creds.secret_key@)),
        decreases pairs@.len() - i,
    {
        assert(pv[i as int] == pairs@[i as int]@);
        match split_once_bytes(pairs[i].as_slice(), EQUALS) {
            Some((k, v)) => {
                if bytes_eq(k.as_slice(), ak) && bytes_eq(v.as_slice(), creds.access_key.as_slice()) {
                    has_access = true;
                }
                if bytes_eq(k.as_slice(), sk) && bytes_eq(v.as_slice(), creds.secret_key.as_slice()) {
                    has_secret = true;
                }
            },
            None => {},
        }
        i = i + 1;
    }
    has_access && has_secret
}

/// The scheme a request attempts, from its headers.
pub fn attempted_scheme(headers: &Vec<Header>) -> (r: AuthScheme)
    ensures
        r == scheme_of(headers@),
{
    let access = header_text(headers, "x-amz-access-key".as_bytes());
    let secret = header_text(headers, "x-amz-secret-key".as_bytes());
    if access.is_some() && secret.is_some() {
        return AuthScheme::KeyHeaders;
    }
    match header_text(headers, "authorization".as_bytes()) {
        Some(auth) => {
            if parse_simple_pair(auth.as_slice()).is_some() {
                AuthScheme::SimplePair
            } else if has_prefix(auth.as_slice(), "AWS4-HMAC-SHA256".as_bytes()) {
                AuthScheme::SigV4
            } else {
                AuthScheme::QueryParams
            }
        },
        None => AuthScheme::QueryParams,
    }
}

/// Decides whether a request is authorized. The first scheme the request
/// attempts decides: both key headers; else a simple `access:secret`
/// authorization; else a SigV4 authorization; else the query parameters.
pub fn verify_auth(
    headers: &Vec<Header>,
    query: &[u8],
    method: &[u8],
    uri_path: &[u8],
    creds: &Credentials,
) -> (r: bool)
    ensures
        r == auth_ok(headers@, query@, method@, uri_path@, *creds),
{
    let scheme = attempted_scheme(headers);
    let auth = header_text(headers, "authorization".as_bytes());
    match scheme {
        AuthScheme::KeyHeaders => {
            let access = header_text(headers, "x-amz-access-key".as_bytes());
            let secret = header_text(headers, "x-amz-secret-key".as_bytes());
            match (access, secret) {
                (Some(a), Some(s)) => bytes_eq(a.as_slice(), creds.access_key.as_slice())
                    && bytes_eq(s.as_slice(), creds.secret_key.as_slice()),
                _ => false,
            }
        },
        AuthScheme::SimplePair => match auth {
            Some(value) => match parse_simple_pair(value.as_slice()) {
                Some((a, s)) => bytes_eq(a.as_slice(), creds.access_key.as_slice())
                    && bytes_eq(s.as_slice(), creds.secret_key.as_slice()),
                None => false,
            },
            None => false,
        },
        AuthScheme::SigV4 => match auth {
            Some(value) => verify_aws_v4_signature(value.as_slice(), headers, method, uri_path, query, creds),
            None => false,
        },
        AuthScheme::QueryParams => query_params_match(query, creds),
    }
}

/// `s` holds no byte `b`.
pub open spec fn free_of(s: Seq<u8>, b: u8) -> bool {
    forall|i: int| 0 <= i < s.len() ==> #[trigger] s[i] != b
}

/// The credential `access/date/region/service/aws4_request`.
pub open spec fn credential(access: Seq<u8>, date: Seq<u8>, region: Seq<u8>, service: Seq<u8>) -> Seq<u8> {
    access + seq![SLASH] + date + seq![SLASH] + region + seq![SLASH] + service + seq![SLASH]
        + "aws4_request".spec_bytes()
}

/// The authorization value a client sends for the credential
/// `access/date/region/service/aws4_request`, the signed header list `signed`
/// and the signature `signature`.
pub open spec fn sigv4_authorization(
    access: Seq<u8>,
    date: Seq<u8>,
    region: Seq<u8>,
    service: Seq<u8>,
    signed: Seq<u8>,
    signature: Seq<u8>,
) -> Seq<u8> {
    "AWS4-HMAC-SHA256 ".spec_bytes() + (
        "Credential=".spec_bytes() + credential(access, date, region, service)
        + ", ".spec_bytes() + ("SignedHeaders=".spec_bytes() + signed)
        + ", ".spec_bytes() + ("Signature=".spec_bytes() + signature)
    )
}

/// The signature a client computes over a request with the given secret,
/// scope and signed header list.
pub open spec fn request_signature(
    hs: Seq<Header>,
    method: Seq<u8>,
    path: Seq<u8>,
    query: Seq<u8>,
    secret: Seq<u8>,
    date: Seq<u8>,
    region: Seq<u8>,
    service: Seq<u8>,
    signed: Seq<u8>,
) -> Seq<u8> {
    signature_of(secret, date, region, service,
        string_to_sign(amz_date(hs), date, region, service,
            canonical_request(method, path, query, hs, signed, payload_hash(hs))))
}

proof fn lemma_hex_free_of_comma(b: Seq<u8>)
    ensures
        free_of(hex_of(b), 0x2c),
    decreases b.len(),
{
    if b.len() > 0 {
        lemma_hex_free_of_comma(b.drop_last());
    }
}

proof fn lemma_credential_parts(access: Seq<u8>, date: Seq<u8>, region: Seq<u8>, service: Seq<u8>)
    requires
        free_of(access, SLASH),
        free_of(date, SLASH),
        free_of(region, SLASH),
        free_of(service, SLASH),
    ensures
        split_on(credential(access, date, region, service), SLASH)
            == seq![access, date, region, service, "aws4_request".spec_bytes()],
{
    reveal_strlit("aws4_request");
    vstd::string::is_ascii_spec_bytes("aws4_request");
    let t = "aws4_request".spec_bytes();
    let s = access + seq![SLASH] + date + seq![SLASH] + region + seq![SLASH] + service + seq![SLASH] + t;
    let k1 = access.len() as int;
    let k2 = k1 + 1 + date.len();
    let k3 = k2 + 1 + region.len();
    let k4 = k3 + 1 + service.len();
    assert(s.subrange(0, k1) == access);
    assert(s.subrange(k1 + 1, k2) == date);
    assert(s.subrange(k2 + 1, k3) == region);
    assert(s.subrange(k3 + 1, k4) == service);
    assert(s.subrange(k4 + 1, s.len() as int) == t);
    assert(Seq::<u8>::empty() + access == access);
    assert(Seq::<u8>::empty() + date == date);
    assert(Seq::<u8>::empty() + region == region);
    assert(Seq::<u8>::empty() + service == service);
    assert(Seq::<u8>::empty() + t == t);
    lemma_split_cut(s, SLASH, 0, k1, Seq::empty());
    lemma_split_cut(s, SLASH, k1 + 1, k2, Seq::empty());
    lemma_split_cut(s, SLASH, k2 + 1, k3, Seq::empty());
    lemma_split_cut(s, SLASH, k3 + 1, k4, Seq::empty());
    lemma_split_last(s, SLASH, k4 + 1, Seq::empty());
}

proof fn lemma_directives(cred: Seq<u8>, signed: Seq<u8>, signature: Seq<u8>)
    requires
        free_of(cred, 0x2c),
        free_of(signed, 0x2c),
        free_of(signature, 0x2c),
    ensures
        ({
            let parts = split_list(
                ("Credential=".spec_bytes() + cred) + ", ".spec_bytes() + ("SignedHeaders=".spec_bytes() + signed)
                    + ", ".spec_bytes() + ("Signature=".spec_bytes() + signature),
            );
            &&& directive(parts, "Credential=".spec_bytes()) == cred
            &&& directive(parts, "SignedHeaders=".spec_bytes()) == signed
            &&& directive(parts, "Signature=".spec_bytes()) == signature
        }),
{
    reveal_strlit("Credential=");
    reveal_strlit("SignedHeaders=");
    reveal_strlit("Signature=");
    reveal_strlit(", ");
    vstd::string::is_ascii_spec_bytes("Credential=");
    vstd::string::is_ascii_spec_bytes("SignedHeaders=");
    vstd::string::is_ascii_spec_bytes("Signature=");
    vstd::string::is_ascii_spec_bytes(", ");
    let pc = "Credential=".spec_bytes();
    let ph = "SignedHeaders=".spec_bytes();
    let ps = "Signature=".spec_bytes();
    let d1 = pc + cred;
    let d2 = ph + signed;
    let d3 = ps + signature;
    let s = d1 + ", ".spec_bytes() + d2 + ", ".spec_bytes() + d3;
    let k1 = d1.len() as int;
    let k2 = k1 + 2 + d2.len();
    assert(s.subrange(0, k1) == d1);
    assert(s.subrange(k1 + 2, k2) == d2);
    assert(s.subrange(k2 + 2, s.len() as int) == d3);
    assert(Seq::<u8>::empty() + d1 == d1);
    assert(Seq::<u8>::empty() + d2 == d2);
    assert(Seq::<u8>::empty() + d3 == d3);
    lemma_split_list_cut(s, 0, k1, Seq::empty());
    lemma_split_list_cut(s, k1 + 2, k2, Seq::empty());
    lemma_split_list_last(s, k2 + 2, Seq::empty());
    let parts = split_list(s);
    assert(parts == seq![d1, d2, d3]);
    assert(d1.subrange(0, pc.len() as int) == pc);
    assert(d2.subrange(0, ph.len() as int) == ph);
    assert(d3.subrange(0, ps.len() as int) == ps);
    assert(d1.subrange(pc.len() as int, d1.len() as int) == cred);
    assert(d2.subrange(ph.len() as int, d2.len() as int) == signed);
    assert(d3.subrange(ps.len() as int, d3.len() as int) == signature);
    assert(!starts_with(d3, pc)) by {
        if d3.len() >= pc.len() {
            assert(d3.subrange(0, pc.len() as int)[0] != pc[0]);
        }
    }
    assert(!starts_with(d2, pc)) by {
        if d2.len() >= pc.len() {
            assert(d2.subrange(0, pc.len() as int)[0] != pc[0]);
        }
    }
    assert(!starts_with(d3, ph)) by {
        if d3.len() >= ph.len() {
            assert(d3.subrange(0, ph.len() as int)[4] != ph[4]);
        }
    }
    assert(parts.drop_last() == seq![d1, d2]);
    assert(parts.drop_last().drop_last() == seq![d1]);
    assert(directive(parts, pc) == directive(seq![d1, d2], pc));
    assert(directive(seq![d1, d2], pc) == directive(seq![d1], pc));
    assert(directive(parts, ph) == directive(seq![d1, d2], ph));
}

proof fn lemma_credential_free_of_comma(access: Seq<u8>, date: Seq<u8>, region: Seq<u8>, service: Seq<u8>)
    requires
        free_of(access, 0x2c),
        free_of(date, 0x2c),
        free_of(region, 0x2c),
        free_of(service, 0x2c),
    ensures
        free_of(credential(access, date, region, service), 0x2c),
{
    reveal_strlit("aws4_request");
    vstd::string::is_ascii_spec_bytes("aws4_request");
    let t = "aws4_request".spec_bytes();
    let c = credential(access, date, region, service);
    assert forall|i: int| 0 <= i < c.len() implies #[trigger] c[i] != 0x2c by {
        let k1 = access.len() as int;
        let k2 = k1 + 1 + date.len();
        let k3 = k2 + 1 + region.len();
        let k4 = k3 + 1 + service.len();
        if i < k1 {
            assert(c[i] == access[i]);
        } else if i == k1 || i == k2 || i == k3 || i == k4 {
        } else if i < k2 {
            assert(c[i] == date[i - k1 - 1]);
        } else if i < k3 {
            assert(c[i] == region[i - k2 - 1]);
        } else if i < k4 {
            assert(c[i] == service[i - k3 - 1]);
        } else {
            assert(c[i] == t[i - k4 - 1]);
        }
    }
}

proof fn lemma_sigv4_ok_from_parts(
    a: Seq<u8>,
    hs: Seq<Header>,
    method: Seq<u8>,
    path: Seq<u8>,
    query: Seq<u8>,
    c: Credentials,
    date: Seq<u8>,
    region: Seq<u8>,
    service: Seq<u8>,
    signed: Seq<u8>,
    sig: Seq<u8>,
)
    requires
        directive(sigv4_directives(a), "Credential=".spec_bytes()) == credential(c.access_key@, date, region, service),
        directive(sigv4_directives(a), "SignedHeaders=".spec_bytes()) == signed,
        directive(sigv4_directives(a), "Signature=".spec_bytes()) == sig,
        split_on(credential(c.access_key@, date, region, service), SLASH)
            == seq![c.access_key@, date, region, service, "aws4_request".spec_bytes()],
        sig == request_signature(hs, method, path, query, c.secret_key@, date, region, service, signed),
    ensures
        sigv4_ok(a, hs, method, path, query, c),
{
}

/// How an authorization value built for a credential, a signed header list
/// and a signature without commas parses.
proof fn lemma_parse_authorization(
    access: Seq<u8>,
    date: Seq<u8>,
    region: Seq<u8>,
    service: Seq<u8>,
    signed: Seq<u8>,
    sig: Seq<u8>,
)
    requires
        free_of(access, SLASH) && free_of(access, 0x2c),
        free_of(date, SLASH) && free_of(date, 0x2c),
        free_of(region, SLASH) && free_of(region, 0x2c),
        free_of(service, SLASH) && free_of(service, 0x2c),
        free_of(signed, 0x2c),
        free_of(sig, 0x2c),
    ensures
        ({
            let a = sigv4_authorization(access, date, region, service, signed, sig);
            &&& starts_with(a, "AWS4-HMAC-SHA256".spec_bytes())
            &&& directive(sigv4_directives(a), "Credential=".spec_bytes()) == credential(access, date, region, service)
            &&& directive(sigv4_directives(a), "SignedHeaders=".spec_bytes()) == signed
            &&& directive(sigv4_directives(a), "Signature=".spec_bytes()) == sig
            &&& split_on(credential(access, date, region, service), SLASH)
                == seq![access, date, region, service, "aws4_request".spec_bytes()]
        }),
{
    let a = sigv4_authorization(access, date, region, service, signed, sig);
    let cred = credential(access, date, region, service);
    let p = "AWS4-HMAC-SHA256 ".spec_bytes();
    let rest = "Credential=".spec_bytes() + cred + ", ".spec_bytes() + ("SignedHeaders=".spec_bytes() + signed)
        + ", ".spec_bytes() + ("Signature=".spec_bytes() + sig);
    assert(a == p + rest);
    assert(starts_with(a, p) && a.subrange(p.len() as int, a.len() as int) == rest) by {
        assert(a.subrange(0, p.len() as int) == p);
        assert(a.subrange(p.len() as int, a.len() as int) == rest);
    }
    assert(starts_with(a, "AWS4-HMAC-SHA256".spec_bytes())) by {
        reveal_strlit("AWS4-HMAC-SHA256 ");
        reveal_strlit("AWS4-HMAC-SHA256");
        vstd::string::is_ascii_spec_bytes("AWS4-HMAC-SHA256 ");
        vstd::string::is_ascii_spec_bytes("AWS4-HMAC-SHA256");
        assert(a.subrange(0, "AWS4-HMAC-SHA256".spec_bytes().len() as int) == "AWS4-HMAC-SHA256".spec_bytes());
    }
    assert(sigv4_directives(a) == split_list(rest));
    lemma_credential_free_of_comma(access, date, region, service);
    lemma_directives(cred, signed, sig);
    lemma_credential_parts(access, date, region, service);
}

/// A request signed as SigV4 prescribes, with the configured secret and for
/// the configured access key, is authorized, unless it also attempts an
/// earlier scheme (both key headers, or a simple `access:secret` value).
/// Scope parts hold no slash and, like the signed header list, no comma.
pub proof fn lemma_signed_request_verifies(
    hs: Seq<Header>,
    method: Seq<u8>,
    path: Seq<u8>,
    query: Seq<u8>,
    c: Credentials,
    date: Seq<u8>,
    region: Seq<u8>,
    service: Seq<u8>,
    signed: Seq<u8>,
)
    requires
        free_of(c.access_key@, SLASH) && free_of(c.access_key@, 0x2c),
        free_of(date, SLASH) && free_of(date, 0x2c),
        free_of(region, SLASH) && free_of(region, 0x2c),
        free_of(service, SLASH) && free_of(service, 0x2c),
        free_of(signed, 0x2c),
        text_header(hs, "authorization".spec_bytes()) == Some(sigv4_authorization(
            c.access_key@, date, region, service, signed,
            request_signature(hs, method, path, query, c.secret_key@, date, region, service, signed),
        )),
        !(text_header(hs, "x-amz-access-key".spec_bytes()) is Some
            && text_header(hs, "x-amz-secret-key".spec_bytes()) is Some),
        simple_pair(sigv4_authorization(
            c.access_key@, date, region, service, signed,
            request_signature(hs, method, path, query, c.secret_key@, date, region, service, signed),
        )) is None,
    ensures
        auth_ok(hs, query, method, path, c),
{
    let sig = request_signature(hs, method, path, query, c.secret_key@, date, region, service, signed);
    let a = sigv4_authorization(c.access_key@, date, region, service, signed, sig);
    lemma_hex_free_of_comma(hmac_sha256_of(signing_key(c.secret_key@, date, region, service),
        string_to_sign(amz_date(hs), date, region, service,
            canonical_request(method, path, query, hs, signed, payload_hash(hs)))));
    lemma_parse_authorization(c.access_key@, date, region, service, signed, sig);
    lemma_sigv4_ok_from_parts(a, hs, method, path, query, c, date, region, service, signed, sig);
}

/// An authorization value signed for one request is accepted on another
/// request (that attempts no earlier scheme) only where the signature computed
/// over the other request is the very same: changing a signed header, the
/// path, the query or the payload hash is accepted only through equal
/// HMAC-SHA256 signatures.
pub proof fn lemma_changed_request_needs_same_signature(
    hs: Seq<Header>,
    method: Seq<u8>,
    path: Seq<u8>,
    query: Seq<u8>,
    hs2: Seq<Header>,
    method2: Seq<u8>,
    path2: Seq<u8>,
    query2: Seq<u8>,
    c: Credentials,
    date: Seq<u8>,
    region: Seq<u8>,
    service: Seq<u8>,
    signed: Seq<u8>,
)
    requires
        free_of(c.access_key@, SLASH) && free_of(c.access_key@, 0x2c),
        free_of(date, SLASH) && free_of(date, 0x2c),
        free_of(region, SLASH) && free_of(region, 0x2c),
        free_of(service, SLASH) && free_of(service, 0x2c),
        free_of(signed, 0x2c),
        text_header(hs2, "authorization".spec_bytes()) == Some(sigv4_authorization(
            c.access_key@, date, region, service, signed,
            request_signature(hs, method, path, query, c.secret_key@, date, region, service, signed),
        )),
        !(text_header(hs2, "x-amz-access-key".spec_bytes()) is Some
            && text_header(hs2, "x-amz-secret-key".spec_bytes()) is Some),
        simple_pair(sigv4_authorization(
            c.access_key@, date, region, service, signed,
            request_signature(hs, method, path, query, c.secret_key@, date, region, service, signed),
        )) is None,
        auth_ok(hs2, query2, method2, path2, c),
    ensures
        request_signature(hs2, method2, path2, query2, c.secret_key@, date, region, service, signed)
            == request_signature(hs, method, path, query, c.secret_key@, date, region, service, signed),
{
    let sig = request_signature(hs, method, path, query, c.secret_key@, date, region, service, signed);
    lemma_hex_free_of_comma(hmac_sha256_of(signing_key(c.secret_key@, date, region, service),
        string_to_sign(amz_date(hs), date, region, service,
            canonical_request(method, path, query, hs, signed, payload_hash(hs)))));
    lemma_parse_authorization(c.access_key@, date, region, service, signed, sig);
}

} // verus!
