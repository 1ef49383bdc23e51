use simple_s3_server::auth::{
    attempted_scheme, verify_auth, verify_aws_v4_signature, AuthScheme, Credentials, Header,
};
use simple_s3_server::store::{
    clamp_max_keys, delete_object, get_object, head_object, key_is_safe, list_objects, put_object,
    DirEntry, GatewayError, ListObjectsQuery, PutSteps,
};

const HI_ETAG: &str = "\"8f434346648f6b96df89dda901c5176b10a6d83961dd3c1ac88b59b2dc327aa4\"";
const SIGNATURE: &str = "99bf31c7b290cbc3803780ec4a5048ab0afc3d67e632536bc62a5781e0db283f";

fn creds() -> Credentials {
    Credentials {
        access_key: b"mykey".to_vec(),
        secret_key: b"mysecret".to_vec(),
        bucket_name: b"simple-bucket".to_vec(),
    }
}

fn header(name: &str, value: &str) -> Header {
    Header { name: name.as_bytes().to_vec(), value: value.as_bytes().to_vec() }
}

fn signed_headers(signature: &str) -> Vec<Header> {
    vec![
        header("host", "localhost:9000"),
        header("x-amz-date", "20240101T000000Z"),
        header("x-amz-content-sha256", "UNSIGNED-PAYLOAD"),
        header(
            "authorization",
            &format!(
                "AWS4-HMAC-SHA256 Credential=mykey/20240101/us-east-1/s3/aws4_request, \
                 SignedHeaders=x-amz-date;host;x-amz-content-sha256, Signature={}",
                signature
            ),
        ),
    ]
}

fn file(name: &str, size: u64) -> DirEntry {
    DirEntry {
        name: name.as_bytes().to_vec(),
        is_file: true,
        size,
        modified_secs: 1431648000,
        modified_nanos: 123_000_000,
    }
}

fn text(v: &[u8]) -> String {
    String::from_utf8(v.to_vec()).unwrap()
}

#[test]
fn header_pair_put_reports_content_etag() {
    let hs = vec![header("x-amz-access-key", "mykey"), header("x-amz-secret-key", "mysecret")];
    assert!(verify_auth(&hs, b"", b"PUT", b"/hello.txt", &creds()));
    let steps = PutSteps { dirs_created: true, body: Some(b"hi".to_vec()), written: true };
    let etag = put_object(b"hello.txt", steps).unwrap();
    assert_eq!(text(&etag), HI_ETAG);
}

#[test]
fn header_pair_with_wrong_secret_is_refused() {
    let hs = vec![header("x-amz-access-key", "mykey"), header("x-amz-secret-key", "nope")];
    assert!(!verify_auth(&hs, b"access_key=mykey&secret_key=mysecret", b"GET", b"/", &creds()));
}

#[test]
fn get_after_put_returns_body_and_same_etag() {
    let got = get_object(b"hello.txt", Some(b"hi".to_vec())).ok().unwrap();
    assert_eq!(got.body, b"hi".to_vec());
    assert_eq!(text(&got.etag), HI_ETAG);
    assert_eq!(got.content_length, 2);
    assert_eq!(text(&got.content_type), "text/plain");
    assert_eq!(text(&got.accept_ranges), "bytes");
}

#[test]
fn delete_twice_then_get_is_not_found() {
    assert_eq!(delete_object(b"hello.txt", true), Ok(204));
    assert_eq!(delete_object(b"hello.txt", false), Ok(204));
    let err = get_object(b"hello.txt", None).err().unwrap();
    assert_eq!(err, GatewayError::NotFound);
    assert_eq!(err.status_code(), 404);
}

#[test]
fn prefix_listing_finds_hello() {
    let entries = vec![file("hello.txt", 2)];
    let query = ListObjectsQuery {
        max_keys: Some(10),
        prefix: Some(b"he".to_vec()),
        marker: None,
    };
    let result = list_objects(b"simple-bucket", &entries, query);
    assert_eq!(result.contents.len(), 1);
    let item = &result.contents[0];
    assert_eq!(text(&item.key), "hello.txt");
    assert_eq!(item.size, 2);
    assert_eq!(text(&item.storage_class), "STANDARD");
    assert_eq!(text(&item.last_modified), "2015-05-15T00:00:00.123Z");
    assert_eq!(
        text(&item.etag),
        "\"a8dae36675777316512695e964933ade1c7cc299b7bc5b9f073add95788d6520\""
    );
    assert_eq!(text(&result.xmlns), "http://s3.amazonaws.com/doc/2006-03-01/");
    assert_eq!(text(&result.name), "simple-bucket");
    assert_eq!(text(&result.prefix), "he");
    assert_eq!(text(&result.marker), "");
    assert_eq!(result.max_keys, 10);
    assert!(!result.is_truncated);
}

#[test]
fn listing_filters_caps_and_sorts() {
    let mut dir = file("hz", 1);
    dir.is_file = false;
    let entries = vec![
        file("hc", 1),
        dir,
        file("other", 1),
        file("ha", 1),
        file("hb", 1),
        file("h0", 1),
    ];
    let query = ListObjectsQuery { max_keys: Some(3), prefix: Some(b"h".to_vec()), marker: Some(b"m".to_vec()) };
    let result = list_objects(b"b", &entries, query);
    let keys: Vec<String> = result.contents.iter().map(|o| text(&o.key)).collect();
    assert_eq!(keys, vec!["ha", "hb", "hc"]);
    assert_eq!(text(&result.marker), "m");
    assert!(!result.is_truncated);
}

#[test]
fn listing_without_query_takes_everything() {
    let entries = vec![file("b", 1), file("a", 1)];
    let query = ListObjectsQuery { max_keys: None, prefix: None, marker: None };
    let result = list_objects(b"b", &entries, query);
    assert_eq!(result.max_keys, 1000);
    let keys: Vec<String> = result.contents.iter().map(|o| text(&o.key)).collect();
    assert_eq!(keys, vec!["a", "b"]);
}

#[test]
fn max_keys_is_capped_at_one_thousand() {
    assert_eq!(clamp_max_keys(Some(5000)), 1000);
    assert_eq!(clamp_max_keys(Some(7)), 7);
    assert_eq!(clamp_max_keys(None), 1000);
}

#[test]
fn head_etag_is_key_and_size_digest() {
    let head = head_object(b"hello.txt", Some(2)).ok().unwrap();
    assert_eq!(
        text(&head.etag),
        "\"a8dae36675777316512695e964933ade1c7cc299b7bc5b9f073add95788d6520\""
    );
    assert_ne!(text(&head.etag), HI_ETAG);
    assert_eq!(head.content_length, 2);
    assert_eq!(text(&head.content_type), "text/plain");
    assert_eq!(head_object(b"hello.txt", None).err(), Some(GatewayError::NotFound));
}

#[test]
fn unknown_extension_is_octet_stream() {
    let head = head_object(b"blob", Some(5)).ok().unwrap();
    assert_eq!(text(&head.content_type), "application/octet-stream");
}

#[test]
fn put_failures_map_to_status_codes() {
    let no_dirs = PutSteps { dirs_created: false, body: Some(b"x".to_vec()), written: true };
    assert_eq!(put_object(b"a/b", no_dirs), Err(GatewayError::InternalError));
    let no_body = PutSteps { dirs_created: true, body: None, written: false };
    assert_eq!(put_object(b"a/b", no_body), Err(GatewayError::BadRequest));
    let no_write = PutSteps { dirs_created: true, body: Some(b"x".to_vec()), written: false };
    let err = put_object(b"a/b", no_write).err().unwrap();
    assert_eq!(err.status_code(), 500);
    assert_eq!(GatewayError::BadRequest.status_code(), 400);
    assert_eq!(GatewayError::Unauthorized.status_code(), 401);
}

#[test]
fn traversal_keys_are_rejected() {
    assert!(key_is_safe(b"dir/file.txt"));
    assert!(!key_is_safe(b"../etc/passwd"));
    assert!(!key_is_safe(b"a/../../b"));
    assert!(!key_is_safe(b"/etc/passwd"));
    assert!(!key_is_safe(b""));
    assert!(key_is_safe(b"a..b"));
    assert_eq!(get_object(b"../x", Some(b"x".to_vec())).err(), Some(GatewayError::BadRequest));
    assert_eq!(delete_object(b"../x", true), Err(GatewayError::BadRequest));
}

#[test]
fn sigv4_valid_signature_is_accepted() {
    let hs = signed_headers(SIGNATURE);
    assert!(verify_auth(&hs, b"prefix=he&max-keys=10", b"GET", b"/hello.txt", &creds()));
}

#[test]
fn sigv4_mutations_are_refused() {
    let hs = signed_headers(SIGNATURE);
    assert!(!verify_auth(&hs, b"prefix=he&max-keys=11", b"GET", b"/hello.txt", &creds()));
    assert!(!verify_auth(&hs, b"prefix=he&max-keys=10", b"GET", b"/hello.txq", &creds()));
    assert!(!verify_auth(&hs, b"prefix=he&max-keys=10", b"PUT", b"/hello.txt", &creds()));
    let mut changed = signed_headers(SIGNATURE);
    changed[1] = header("x-amz-date", "20240101T000001Z");
    assert!(!verify_auth(&changed, b"prefix=he&max-keys=10", b"GET", b"/hello.txt", &creds()));
    let mut payload = signed_headers(SIGNATURE);
    payload[2] = header("x-amz-content-sha256", "abc");
    assert!(!verify_auth(&payload, b"prefix=he&max-keys=10", b"GET", b"/hello.txt", &creds()));
}

#[test]
fn sigv4_trims_signed_header_values() {
    let mut hs = signed_headers(SIGNATURE);
    hs[0] = header("host", "  localhost:9000\t");
    assert!(verify_auth(&hs, b"prefix=he&max-keys=10", b"GET", b"/hello.txt", &creds()));
}

#[test]
fn sigv4_wrong_signature_or_credential_is_refused() {
    let hs = signed_headers("00");
    assert!(!verify_auth(&hs, b"prefix=he&max-keys=10", b"GET", b"/hello.txt", &creds()));
    let short = vec![header(
        "authorization",
        "AWS4-HMAC-SHA256 Credential=mykey/20240101/us-east-1/s3, SignedHeaders=host, Signature=00",
    )];
    let auth = short[0].value.clone();
    assert!(!verify_aws_v4_signature(&auth, &short, b"GET", b"/", b"", &creds()));
    let other = vec![header(
        "authorization",
        "AWS4-HMAC-SHA256 Credential=other/20240101/us-east-1/s3/aws4_request, SignedHeaders=host, Signature=00",
    )];
    assert!(!verify_auth(&other, b"access_key=mykey&secret_key=mysecret", b"GET", b"/", &creds()));
}

#[test]
fn simple_authorization_schemes() {
    let bearer = vec![header("authorization", "Bearer mykey:mysecret")];
    assert!(verify_auth(&bearer, b"", b"GET", b"/", &creds()));
    let plain = vec![header("authorization", "mykey:mysecret")];
    assert!(verify_auth(&plain, b"", b"GET", b"/", &creds()));
    let wrong = vec![header("authorization", "mykey:other")];
    assert!(!verify_auth(&wrong, b"access_key=mykey&secret_key=mysecret", b"GET", b"/", &creds()));
}

#[test]
fn malformed_simple_pair_falls_through_to_query() {
    let two_colons = vec![header("authorization", "mykey:my:secret")];
    assert!(verify_auth(&two_colons, b"secret_key=mysecret&x=1&access_key=mykey", b"GET", b"/", &creds()));
    assert!(!verify_auth(&two_colons, b"", b"GET", b"/", &creds()));
    let empty_part = vec![header("authorization", ":mysecret")];
    assert!(!verify_auth(&empty_part, b"", b"GET", b"/", &creds()));
}

#[test]
fn query_parameter_scheme() {
    let none: Vec<Header> = Vec::new();
    assert!(verify_auth(&none, b"access_key=mykey&secret_key=mysecret", b"GET", b"/", &creds()));
    assert!(!verify_auth(&none, b"access_key=mykey", b"GET", b"/", &creds()));
    assert!(!verify_auth(&none, b"access_key=mykey&secret_key=wrong", b"GET", b"/", &creds()));
    assert!(!verify_auth(&none, b"", b"GET", b"/", &creds()));
}

#[test]
fn non_text_key_header_is_ignored() {
    let hs = vec![
        Header { name: b"x-amz-access-key".to_vec(), value: vec![0xff] },
        header("x-amz-secret-key", "mysecret"),
    ];
    assert!(verify_auth(&hs, b"access_key=mykey&secret_key=mysecret", b"GET", b"/", &creds()));
}

#[test]
fn sigv4_matches_signed_names_without_case_and_skips_absent_ones() {
    let hs = vec![
        header("host", "localhost:9000"),
        header("x-amz-date", "20240101T000000Z"),
        header(
            "authorization",
            "AWS4-HMAC-SHA256 Credential=mykey/20240101/eu-west-1/s3/aws4_request, \
             SignedHeaders=x-amz-date;Host;x-amz-missing, \
             Signature=81f51f6f96390194d53c027cd9a2f2797c5933f861e61f8564df0b93437d4b2a",
        ),
    ];
    assert!(verify_auth(&hs, b"", b"PUT", b"/a/b.txt", &creds()));
    assert!(!verify_auth(&hs, b"", b"PUT", b"/a/b.txu", &creds()));
}

#[test]
fn schemes_are_tried_in_order() {
    let both = vec![
        header("authorization", "mykey:mysecret"),
        header("x-amz-secret-key", "s"),
        header("x-amz-access-key", "a"),
    ];
    assert_eq!(attempted_scheme(&both), AuthScheme::KeyHeaders);
    assert!(!verify_auth(&both, b"", b"GET", b"/", &creds()));
    let one_key = vec![header("x-amz-access-key", "mykey"), header("authorization", "mykey:mysecret")];
    assert_eq!(attempted_scheme(&one_key), AuthScheme::SimplePair);
    assert!(verify_auth(&one_key, b"", b"GET", b"/", &creds()));
    assert_eq!(attempted_scheme(&signed_headers(SIGNATURE)), AuthScheme::SigV4);
    let other = vec![header("authorization", "Basic abc")];
    assert_eq!(attempted_scheme(&other), AuthScheme::QueryParams);
    assert_eq!(attempted_scheme(&Vec::new()), AuthScheme::QueryParams);
}

#[test]
fn zero_max_keys_lists_nothing() {
    let entries = vec![file("a", 1), file("b", 2)];
    let query = ListObjectsQuery { max_keys: Some(0), prefix: None, marker: None };
    let result = list_objects(b"b", &entries, query);
    assert_eq!(result.max_keys, 0);
    assert!(result.contents.is_empty());
}

#[test]
fn empty_directory_lists_nothing() {
    let entries: Vec<DirEntry> = Vec::new();
    let query = ListObjectsQuery { max_keys: Some(10), prefix: Some(b"x".to_vec()), marker: None };
    assert!(list_objects(b"b", &entries, query).contents.is_empty());
}

#[test]
fn empty_object_round_trip() {
    let steps = PutSteps { dirs_created: true, body: Some(Vec::new()), written: true };
    let etag = put_object(b"empty", steps).unwrap();
    assert_eq!(
        text(&etag),
        "\"e3b0c44298fc1c149afbf4c8996fb92427ae41e4649b934ca495991b7852b855\""
    );
    let got = get_object(b"empty", Some(Vec::new())).ok().unwrap();
    assert_eq!(got.etag, etag);
    assert_eq!(got.content_length, 0);
}
