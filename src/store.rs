//! The object API over a flat directory: listing, reading, storing, deleting
//! and describing objects, with the entity tags each operation reports.
use vstd::prelude::*;
use vstd::string::StringSliceAdditionalSpecFns;
use crate::bytes::{decimal, decimal_bytes, has_prefix, push_all, split_bytes, split_on, starts_with, tail};
use crate::digest::{
    lemma_hex_len, content_type_of, format_timestamp, guess_content_type, hex_encode, hex_of, sha256, sha256_of,
    timestamp_text_of,
};
use crate::sort::{
    Keyed, SortKey, keys_distinct, keys_strictly_ascending, lemma_map_sort, lemma_sort_elements,
    lemma_sort_strictly_ascending, sort_by_key, sort_seq,
};

verus! {

pub const QUOTE: u8 = 0x22;
pub const KEY_SEPARATOR: u8 = 0x3a;
pub const PATH_SEPARATOR: u8 = 0x2f;
pub const DEFAULT_MAX_KEYS: usize = 1000;

/// A failure that the gateway reports as a status code.
#[derive(PartialEq, Eq, Structural, Clone, Copy, Debug)]
pub enum GatewayError {
    Unauthorized,
    NotFound,
    BadRequest,
    InternalError,
}

impl GatewayError {
    /// The HTTP status code for this failure.
    pub fn status_code(&self) -> (r: u16)
        ensures
            r == match *self {
                GatewayError::Unauthorized => 401u16,
                GatewayError::NotFound => 404u16,
                GatewayError::BadRequest => 400u16,
                GatewayError::InternalError => 500u16,
            },
    {
        match self {
            GatewayError::Unauthorized => 401,
            GatewayError::NotFound => 404,
            GatewayError::BadRequest => 400,
            GatewayError::InternalError => 500,
        }
    }
}

/// One entry of the storage root as the filesystem reported it.
pub struct DirEntry {
    pub name: Vec<u8>,
    pub is_file: bool,
    pub size: u64,
    /// Last modification, whole seconds since the Unix epoch.
    pub modified_secs: i64,
    /// Last modification, nanoseconds past `modified_secs`.
    pub modified_nanos: u32,
}

/// One `Contents` element of a listing.
pub struct ObjectInfo {
    pub key: Vec<u8>,
    pub last_modified: Vec<u8>,
    pub etag: Vec<u8>,
    pub size: u64,
    pub storage_class: Vec<u8>,
}

/// What an `ObjectInfo` holds.
pub struct ObjectInfoView {
    pub key: Seq<u8>,
    pub last_modified: Seq<u8>,
    pub etag: Seq<u8>,
    pub size: u64,
    pub storage_class: Seq<u8>,
}

impl View for ObjectInfo {
    type V = ObjectInfoView;

    open spec fn view(&self) -> ObjectInfoView {
        ObjectInfoView {
            key: self.key@,
            last_modified: self.last_modified@,
            etag: self.etag@,
            size: self.size,
            storage_class: self.storage_class@,
        }
    }
}

impl Keyed for ObjectInfoView {
    open spec fn sort_key(&self) -> Seq<u8> {
        self.key
    }
}

impl Keyed for ObjectInfo {
    open spec fn sort_key(&self) -> Seq<u8> {
        self.key@
    }
}

impl SortKey for ObjectInfo {
    fn key_bytes(&self) -> (r: &[u8]) {
        self.key.as_slice()
    }
}

/// The query of a listing request.
pub struct ListObjectsQuery {
    pub max_keys: Option<usize>,
    pub prefix: Option<Vec<u8>>,
    pub marker: Option<Vec<u8>>,
}

/// A listing of the bucket.
pub struct ListBucketResult {
    pub xmlns: Vec<u8>,
    pub name: Vec<u8>,
    pub prefix: Vec<u8>,
    pub marker: Vec<u8>,
    pub max_keys: usize,
    pub is_truncated: bool,
    pub contents: Vec<ObjectInfo>,
}

/// `s` between double quotes.
pub open spec fn quoted(s: Seq<u8>) -> Seq<u8> {
    seq![QUOTE] + s + seq![QUOTE]
}

/// The tag of stored content: its SHA-256 digest in hex, quoted.
pub open spec fn content_etag_of(data: Seq<u8>) -> Seq<u8> {
    quoted(hex_of(sha256_of(data)))
}

/// The tag that listings and metadata queries report: the SHA-256 digest of
/// `key:size` in hex, quoted.
pub open spec fn metadata_etag_of(key: Seq<u8>, size: u64) -> Seq<u8> {
    quoted(hex_of(sha256_of(key + seq![KEY_SEPARATOR] + decimal(size as nat))))
}

/// The quoted hex SHA-256 digest of `data`.
pub fn content_etag(data: &[u8]) -> (r: Vec<u8>)
    ensures
        r@ == content_etag_of(data@),
{
    let digest = hex_encode(sha256(data).as_slice());
    let mut r: Vec<u8> = Vec::new();
    r.push(QUOTE);
    push_all(&mut r, digest.as_slice());
    r.push(QUOTE);
    r
}

/// The quoted hex SHA-256 digest of `key:size`.
pub fn metadata_etag(key: &[u8], size: u64) -> (r: Vec<u8>)
    ensures
        r@ == metadata_etag_of(key@, size),
{
    let mut text: Vec<u8> = Vec::new();
    push_all(&mut text, key);
    text.push(KEY_SEPARATOR);
    let digits = decimal_bytes(size);
    push_all(&mut text, digits.as_slice());
    assert(text@ == key@ + seq![KEY_SEPARATOR] + decimal(size as nat));
    content_etag(text.as_slice())
}

/// A key that stays inside the storage root: non-empty, not absolute, and
/// with no `..` component.
pub open spec fn safe_key(key: Seq<u8>) -> bool {
    &&& key.len() > 0
    &&& key[0] != PATH_SEPARATOR
    &&& forall|i: int| 0 <= i < split_on(key, PATH_SEPARATOR).len()
            ==> #[trigger] split_on(key, PATH_SEPARATOR)[i] != "..".spec_bytes()
}

/// Whether `key` names a path inside the storage root.
pub fn key_is_safe(key: &[u8]) -> (r: bool)
    ensures
        r == safe_key(key@),
{
    if key.len() == 0 || key[0] == PATH_SEPARATOR {
        return false;
    }
    let parts = split_bytes(key, PATH_SEPARATOR);
    let ghost pv = parts@.map_values(|p: Vec<u8>| p@);
    let dots = "..".as_bytes();
    let mut i: usize = 0;
    while i < parts.len()
        invariant
            0 <= i <= parts@.len(),
            pv == parts@.map_values(|p: Vec<u8>| p@),
            pv == split_on(key@, PATH_SEPARATOR),
            dots@ == "..".spec_bytes(),
            forall|j: int| 0 <= j < i ==> #[trigger] pv[j] != dots@,
        decreases parts@.len() - i,
    {
        assert(pv[i as int] == parts@[i as int]@);
        if crate::bytes::bytes_eq(parts[i].as_slice(), dots) {
            return false;
        }
        i = i + 1;
    }
    true
}

/// The `max-keys` of a listing: as requested, at most 1000, 1000 by default.
pub open spec fn max_keys_of(requested: Option<usize>) -> usize {
    match requested {
        Some(n) => if n < DEFAULT_MAX_KEYS { n } else { DEFAULT_MAX_KEYS },
        None => DEFAULT_MAX_KEYS,
    }
}

/// The `max-keys` of a listing request.
pub fn clamp_max_keys(requested: Option<usize>) -> (r: usize)
    ensures
        r == max_keys_of(requested),
{
    match requested {
        Some(n) => if n < DEFAULT_MAX_KEYS { n } else { DEFAULT_MAX_KEYS },
        None => DEFAULT_MAX_KEYS,
    }
}

/// The listing element for a directory entry.
pub open spec fn info_of(e: DirEntry) -> ObjectInfoView {
    ObjectInfoView {
        key: e.name@,
        last_modified: match timestamp_text_of(e.modified_secs as int, e.modified_nanos as int) {
            Some(t) => t,
            None => Seq::empty(),
        },
        etag: metadata_etag_of(e.name@, e.size),
        size: e.size,
        storage_class: "STANDARD".spec_bytes(),
    }
}

/// The entry is a regular file whose name starts with `prefix`.
pub open spec fn entry_matches(e: DirEntry, prefix: Seq<u8>) -> bool {
    e.is_file && starts_with(e.name@, prefix)
}

/// The listing elements of the matching entries, in directory order.
pub open spec fn matching(entries: Seq<DirEntry>, prefix: Seq<u8>) -> Seq<ObjectInfoView>
    decreases entries.len(),
{
    if entries.len() == 0 {
        Seq::empty()
    } else if entry_matches(entries.last(), prefix) {
        matching(entries.drop_last(), prefix).push(info_of(entries.last()))
    } else {
        matching(entries.drop_last(), prefix)
    }
}

/// The first `n` elements of `s` (all of them where it is shorter).
pub open spec fn take<T>(s: Seq<T>, n: int) -> Seq<T> {
    if s.len() <= n { s } else { s.subrange(0, n) }
}

/// The contents of a listing: the first `max_keys` matching entries in
/// directory order, then sorted by key.
pub open spec fn listing(entries: Seq<DirEntry>, prefix: Seq<u8>, max_keys: usize) -> Seq<ObjectInfoView> {
    sort_seq(take(matching(entries, prefix), max_keys as int))
}

/// The listing element for `e`.
fn object_info(e: &DirEntry) -> (r: ObjectInfo)
    ensures
        r@ == info_of(*e),
{
    let last_modified = match format_timestamp(e.modified_secs, e.modified_nanos) {
        Some(t) => t,
        None => Vec::new(),
    };
    let standard = "STANDARD".as_bytes();
    assert(e.name@.subrange(0, e.name@.len() as int) == e.name@);
    assert(standard@.subrange(0, standard@.len() as int) == standard@);
    ObjectInfo {
        key: tail(e.name.as_slice(), 0),
        last_modified,
        etag: metadata_etag(e.name.as_slice(), e.size),
        size: e.size,
        storage_class: tail(standard, 0),
    }
}

/// The objects of a listing: regular files whose name starts with `prefix`,
/// collected in directory order until `max_keys` are found, then sorted by key.
pub fn select_objects(entries: &Vec<DirEntry>, prefix: &[u8], max_keys: usize) -> (r: Vec<ObjectInfo>)
    ensures
        r@.map_values(|o: ObjectInfo| o@) == listing(entries@, prefix@, max_keys),
{
    let mut found: Vec<ObjectInfo> = Vec::new();
    let mut i: usize = 0;
    while i < entries.len()
        invariant
            0 <= i <= entries@.len(),
            found@.map_values(|o: ObjectInfo| o@) == take(matching(entries@.subrange(0, i as int), prefix@), max_keys as int),
        decreases entries@.len() - i,
    {
        let e = &entries[i];
        proof {
            let q = entries@.subrange(0, i + 1);
            assert(q.drop_last() == entries@.subrange(0, i as int));
            assert(q.last() == *e);
        }
        if found.len() < max_keys && e.is_file && has_prefix(e.name.as_slice(), prefix) {
            let ghost before = found@.map_values(|o: ObjectInfo| o@);
            let info = object_info(e);
            found.push(info);
            assert(found@.map_values(|o: ObjectInfo| o@) == before.push(info_of(*e)));
        }
        i = i + 1;
    }
    assert(entries@.subrange(0, entries@.len() as int) == entries@);
    let ghost collected = found@;
    let sorted = sort_by_key(found);
    proof {
        lemma_map_sort(collected, |o: ObjectInfo| o@);
    }
    sorted
}

/// Lists the bucket for a listing request, given the entries of the storage
/// root. The truncation flag is always false.
pub fn list_objects(bucket_name: &[u8], entries: &Vec<DirEntry>, params: ListObjectsQuery) -> (r: ListBucketResult)
    ensures
        r.xmlns@ == "http://s3.amazonaws.com/doc/2006-03-01/".spec_bytes(),
        r.name@ == bucket_name@,
        r.prefix@ == match params.prefix { Some(p) => p@, None => Seq::empty() },
        r.marker@ == match params.marker { Some(m) => m@, None => Seq::empty() },
        r.max_keys == max_keys_of(params.max_keys),
        !r.is_truncated,
        r.contents@.map_values(|o: ObjectInfo| o@) == listing(entries@, r.prefix@, r.max_keys),
{
    let max_keys = clamp_max_keys(params.max_keys);
    let prefix = match params.prefix {
        Some(p) => p,
        None => Vec::new(),
    };
    let contents = select_objects(entries, prefix.as_slice(), max_keys);
    ListBucketResult {
        xmlns: tail("http://s3.amazonaws.com/doc/2006-03-01/".as_bytes(), 0),
        name: tail(bucket_name, 0),
        prefix,
        marker: match params.marker {
            Some(m) => m,
            None => Vec::new(),
        },
        max_keys,
        is_truncated: false,
        contents,
    }
}

/// The response to a successful read of an object.
pub struct GetObjectResponse {
    pub content_type: Vec<u8>,
    pub etag: Vec<u8>,
    pub content_length: usize,
    pub accept_ranges: Vec<u8>,
    pub body: Vec<u8>,
}

/// The response to a successful metadata query.
pub struct HeadObjectResponse {
    pub content_type: Vec<u8>,
    pub content_length: u64,
    pub etag: Vec<u8>,
}

/// Answers a read of `key`, given the file's content, or `None` where it
/// could not be read. An unsafe key is a bad request.
pub fn get_object(key: &[u8], content: Option<Vec<u8>>) -> (r: Result<GetObjectResponse, GatewayError>)
    ensures
        !safe_key(key@) ==> r == Err::<GetObjectResponse, GatewayError>(GatewayError::BadRequest),
        safe_key(key@) && content is None ==> r == Err::<GetObjectResponse, GatewayError>(GatewayError::NotFound),
        safe_key(key@) && content is Some ==> (r matches Ok(g) && {
            &&& g.body@ == content->0@
            &&& g.etag@ == content_etag_of(content->0@)
            &&& g.content_type@ == content_type_of(key@)
            &&& g.content_length == content->0@.len()
            &&& g.accept_ranges@ == "bytes".spec_bytes()
        }),
{
    if !key_is_safe(key) {
        return Err(GatewayError::BadRequest);
    }
    match content {
        Some(data) => {
            let etag = content_etag(data.as_slice());
            let ranges = "bytes".as_bytes();
            assert(ranges@.subrange(0, ranges@.len() as int) == ranges@);
            Ok(GetObjectResponse {
                content_type: guess_content_type(key),
                etag,
                content_length: data.len(),
                accept_ranges: tail(ranges, 0),
                body: data,
            })
        },
        None => Err(GatewayError::NotFound),
    }
}

/// How each step of storing an object went.
pub struct PutSteps {
    /// The parent directories exist or were created.
    pub dirs_created: bool,
    /// The request body, or `None` where it could not be read.
    pub body: Option<Vec<u8>>,
    /// The file was created or truncated and the whole body written.
    pub written: bool,
}

/// Answers a store of `key` from how its steps went, in order: directories,
/// body, write. On success the result is the entity tag of the body.
pub fn put_object(key: &[u8], steps: PutSteps) -> (r: Result<Vec<u8>, GatewayError>)
    ensures
        !safe_key(key@) ==> r == Err::<Vec<u8>, GatewayError>(GatewayError::BadRequest),
        safe_key(key@) && !steps.dirs_created ==> r == Err::<Vec<u8>, GatewayError>(GatewayError::InternalError),
        safe_key(key@) && steps.dirs_created && steps.body is None
            ==> r == Err::<Vec<u8>, GatewayError>(GatewayError::BadRequest),
        safe_key(key@) && steps.dirs_created && steps.body is Some && !steps.written
            ==> r == Err::<Vec<u8>, GatewayError>(GatewayError::InternalError),
        safe_key(key@) && steps.dirs_created && steps.written && steps.body is Some
            ==> (r matches Ok(t) && t@ == content_etag_of(steps.body->0@)),
{
    if !key_is_safe(key) {
        return Err(GatewayError::BadRequest);
    }
    if !steps.dirs_created {
        return Err(GatewayError::InternalError);
    }
    match steps.body {
        Some(data) => {
            if !steps.written {
                return Err(GatewayError::InternalError);
            }
            Ok(content_etag(data.as_slice()))
        },
        None => Err(GatewayError::BadRequest),
    }
}

/// The status of a delete: 204 whether or not the object existed.
pub fn delete_object(key: &[u8], removed: bool) -> (r: Result<u16, GatewayError>)
    ensures
        !safe_key(key@) ==> r == Err::<u16, GatewayError>(GatewayError::BadRequest),
        safe_key(key@) ==> r == Ok::<u16, GatewayError>(204),
{
    if !key_is_safe(key) {
        return Err(GatewayError::BadRequest);
    }
    Ok(204)
}

/// Answers a metadata query of `key`, given the file's size, or `None` where
/// it does not exist.
pub fn head_object(key: &[u8], size: Option<u64>) -> (r: Result<HeadObjectResponse, GatewayError>)
    ensures
        !safe_key(key@) ==> r == Err::<HeadObjectResponse, GatewayError>(GatewayError::BadRequest),
        safe_key(key@) && size is None ==> r == Err::<HeadObjectResponse, GatewayError>(GatewayError::NotFound),
        safe_key(key@) && size is Some ==> (r matches Ok(h) && {
            &&& h.content_type@ == content_type_of(key@)
            &&& h.content_length == size->0
            &&& h.etag@ == metadata_etag_of(key@, size->0)
        }),
{
    if !key_is_safe(key) {
        return Err(GatewayError::BadRequest);
    }
    match size {
        Some(n) => Ok(HeadObjectResponse {
            content_type: guess_content_type(key),
            content_length: n,
            etag: metadata_etag(key, n),
        }),
        None => Err(GatewayError::NotFound),
    }
}

/// No two entries share a name, as in one directory.
pub open spec fn names_distinct(entries: Seq<DirEntry>) -> bool {
    forall|i: int, j: int| 0 <= i < j < entries.len() ==> (#[trigger] entries[i]).name@ != (#[trigger] entries[j]).name@
}

proof fn lemma_matching(entries: Seq<DirEntry>, prefix: Seq<u8>)
    ensures
        forall|k: int| 0 <= k < matching(entries, prefix).len() ==> {
            &&& starts_with(#[trigger] matching(entries, prefix)[k].key, prefix)
            &&& exists|j: int| 0 <= j < entries.len() && matching(entries, prefix)[k].key == (#[trigger] entries[j]).name@
        },
        names_distinct(entries) ==> keys_distinct(matching(entries, prefix)),
    decreases entries.len(),
{
    if entries.len() > 0 {
        let p = entries.drop_last();
        lemma_matching(p, prefix);
        let mp = matching(p, prefix);
        let m = matching(entries, prefix);
        assert forall|k: int| 0 <= k < m.len() implies {
            &&& starts_with(#[trigger] m[k].key, prefix)
            &&& exists|j: int| 0 <= j < entries.len() && m[k].key == (#[trigger] entries[j]).name@
        } by {
            if k < mp.len() {
                assert(m[k] == mp[k]);
                let j = choose|j: int| 0 <= j < p.len() && mp[k].key == (#[trigger] p[j]).name@;
                assert(entries[j] == p[j]);
            } else {
                assert(m[k] == info_of(entries.last()));
                assert(entries[entries.len() - 1] == entries.last());
            }
        }
        if names_distinct(entries) {
            assert forall|i: int, j: int| 0 <= i < j < p.len() implies (#[trigger] p[i]).name@ != (#[trigger] p[j]).name@ by {
                assert(p[i] == entries[i] && p[j] == entries[j]);
            }
            assert forall|i: int, j: int| 0 <= i < j < m.len() implies (#[trigger] m[i]).sort_key() != (#[trigger] m[j]).sort_key() by {
                if j < mp.len() {
                    assert(m[i] == mp[i] && m[j] == mp[j]);
                } else {
                    assert(m[i] == mp[i]);
                    let jj = choose|jj: int| 0 <= jj < p.len() && mp[i].key == (#[trigger] p[jj]).name@;
                    assert(entries[jj] == p[jj]);
                    assert(m[j].key == entries[entries.len() - 1].name@);
                }
            }
        }
    }
}

/// A listing holds at most `max_keys` objects, each key starts with the
/// prefix, and keys ascend strictly when entry names are distinct.
pub proof fn lemma_listing_bounded_and_ordered(entries: Seq<DirEntry>, prefix: Seq<u8>, max_keys: usize)
    requires
        names_distinct(entries),
    ensures
        listing(entries, prefix, max_keys).len() <= max_keys,
        forall|k: int| 0 <= k < listing(entries, prefix, max_keys).len()
            ==> starts_with(#[trigger] listing(entries, prefix, max_keys)[k].key, prefix),
        keys_strictly_ascending(listing(entries, prefix, max_keys)),
{
    let m = matching(entries, prefix);
    let t = take(m, max_keys as int);
    lemma_matching(entries, prefix);
    assert forall|k: int| 0 <= k < t.len() implies starts_with(#[trigger] t[k].key, prefix) by {
        assert(t[k] == m[k]);
    }
    assert forall|i: int, j: int| 0 <= i < j < t.len() implies (#[trigger] t[i]).sort_key() != (#[trigger] t[j]).sort_key() by {
        assert(t[i] == m[i] && t[j] == m[j]);
    }
    lemma_sort_elements(t);
    lemma_sort_strictly_ascending(t);
    let l = sort_seq(t);
    assert forall|k: int| 0 <= k < l.len() implies starts_with(#[trigger] l[k].key, prefix) by {
        assert(l.contains(l[k]));
        assert(t.contains(l[k]));
        let j = choose|j: int| 0 <= j < t.len() && t[j] == l[k];
    }
}

/// Storing bytes and reading the same bytes back report the same entity tag:
/// the quoted hex SHA-256 digest of the bytes, two digits per digest byte.
pub proof fn lemma_put_get_etag(body: Seq<u8>)
    ensures
        content_etag_of(body) == quoted(hex_of(sha256_of(body))),
        content_etag_of(body).len() == 2 * sha256_of(body).len() + 2,
{
    lemma_hex_len(sha256_of(body));
}

/// A metadata query reports the same entity tag as the listing does for an
/// entry of that name and size.
pub proof fn lemma_head_etag_matches_listing(e: DirEntry)
    ensures
        info_of(e).etag == metadata_etag_of(e.name@, e.size),
{
}

} // verus!
