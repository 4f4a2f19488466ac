use vstd::prelude::*;
use vstd::string::*;

use crate::text::{
    remove_char, strip_both, strip_start, suffix_from, trim_char, trim_start_char, trim_whitespace,
    trim_ws, without_char,
};

verus! {

/// Credentials and location of one bucket.
#[derive(Debug, Clone)]
pub struct S3Config {
    pub access_key_id: String,
    pub secret_access_key: String,
    pub region: String,
    pub endpoint: String,
    pub bucket_name: String,
}

/// One entry of a listing. Keys are full keys from the bucket root.
#[allow(non_camel_case_types)]
#[derive(Debug, Clone)]
pub enum __S3Object {
    /// A common prefix, ending in `/`.
    Folder(String),
    /// An object, its size in bytes and when it was last modified.
    File { key: String, size: i64, last_modified: Option<String> },
}

pub type S3Object = __S3Object;

/// The key of an entry.
pub open spec fn key_of(o: __S3Object) -> Seq<char> {
    match o {
        __S3Object::Folder(key) => key@,
        __S3Object::File { key, .. } => key@,
    }
}

impl __S3Object {
    pub fn key(&self) -> (r: &String)
        ensures
            r@ == key_of(*self),
    {
        match self {
            __S3Object::Folder(key) => key,
            __S3Object::File { key, .. } => key,
        }
    }
}

proof fn lemma_strip_start_len(s: Seq<char>, c: char)
    ensures
        strip_start(s, c).len() <= s.len(),
    decreases s.len(),
{
    if s.len() > 0 && s[0] == c {
        lemma_strip_start_len(s.drop_first(), c);
    }
}

/// A key as shown under `prefix`: when the key is longer than the prefix,
/// the prefix's length (without its leading slashes) is cut from the key's
/// start and then the slashes that follow; otherwise the key unchanged.
/// Lengths count characters.
pub open spec fn key_under_prefix(key: Seq<char>, prefix: Seq<char>) -> Seq<char> {
    if key.len() <= prefix.len() {
        key
    } else {
        let p = strip_start(prefix, '/');
        strip_start(key.subrange(p.len() as int, key.len() as int), '/')
    }
}

/// The key `key` as shown under `prefix` (see `key_under_prefix`).
pub fn strip_key_prefix(key: &str, prefix: &str) -> (r: String)
    ensures
        r@ == key_under_prefix(key@, prefix@),
{
    let n = key.unicode_len();
    let m = prefix.unicode_len();
    if n <= m {
        return key.to_string();
    }
    let p = trim_start_char(prefix, '/');
    proof {
        lemma_strip_start_len(prefix@, '/');
    }
    let pl = p.as_str().unicode_len();
    let rest = suffix_from(key, pl);
    trim_start_char(rest.as_str(), '/')
}

/// Shortening a full key to the part below a prefix.
pub trait TrimPrefix: Sized + View<V = Seq<char>> {
    fn trim_key_prefix(&self, key: &str) -> (r: Self)
        ensures
            r@ == key_under_prefix(self@, key@),
    ;
}

impl TrimPrefix for String {
    fn trim_key_prefix(&self, key: &str) -> (r: String) {
        strip_key_prefix(self.as_str(), key)
    }
}

/// The key of the marker object that makes the folder `key` exist.
pub fn folder_marker_key(key: &str) -> (r: String)
    ensures
        r@ == strip_both(key@, '/') + "/__fd.dat"@,
{
    let mut r = trim_char(key, '/');
    r.append("/__fd.dat");
    r
}

/// A folder name as typed, made safe for a key: white space and slashes
/// trimmed from its ends and every `.` removed.
pub open spec fn clean_folder_name(name: Seq<char>) -> Seq<char> {
    remove_char(strip_both(trim_whitespace(name), '/'), '.')
}

/// The key of a new folder `name` under `prefix`.
pub fn create_folder_key(prefix: &str, name: &str) -> (r: String)
    ensures
        r@ == strip_both(prefix@, '/') + "/"@ + clean_folder_name(name@),
{
    let trimmed = trim_ws(name);
    let bare = trim_char(trimmed.as_str(), '/');
    let clean = without_char(bare.as_str(), '.');
    let mut key = trim_char(prefix, '/');
    key.append("/");
    key.append(clean.as_str());
    key
}

/// What the listing service reports of one object.
pub struct ListedFile {
    pub key: String,
    pub size: Option<i64>,
    /// Seconds since the Unix epoch.
    pub modified_secs: Option<i64>,
}

/// The text shown for a modification time given in seconds since the Unix
/// epoch; none where the time is out of the representable range.
pub uninterp spec fn modified_label(secs: i64) -> Option<Seq<char>>;

/// Relies on chrono's `DateTime::from_timestamp_secs`, which gives `None` out
/// of range, and on `DateTime::format` with a fixed pattern; the text depends
/// on the number alone.
#[verifier::external_body]
fn format_modified(secs: i64) -> (r: Option<String>)
    ensures
        match r {
            Some(s) => modified_label(secs) == Some(s@),
            None => modified_label(secs) is None,
        },
{
    match chrono::DateTime::from_timestamp_secs(secs) {
        Some(d) => Some(d.format("%b %d, %Y %-I:%M:%S %p").to_string()),
        None => None,
    }
}

/// The folder keys among the reported common prefixes, in order; absent
/// prefixes are skipped.
pub open spec fn folder_keys(prefixes: Seq<Option<String>>) -> Seq<Seq<char>>
    decreases prefixes.len(),
{
    if prefixes.len() == 0 {
        seq![]
    } else {
        let rest = folder_keys(prefixes.drop_last());
        match prefixes.last() {
            Some(p) => rest.push(p@),
            None => rest,
        }
    }
}

pub open spec fn opt_text(o: Option<String>) -> Option<Seq<char>> {
    match o {
        Some(s) => Some(s@),
        None => None,
    }
}

/// `o` is the folder entry for the key `k`.
pub open spec fn is_folder_entry(o: __S3Object, k: Seq<char>) -> bool {
    o matches __S3Object::Folder(f) && f@ == k
}

/// `o` is the file entry for the reported object `f`: same key, the size
/// (0 when not reported), and the label of the modification time.
pub open spec fn is_file_entry(o: __S3Object, f: ListedFile) -> bool {
    match o {
        __S3Object::File { key, size, last_modified } => {
            &&& key@ == f.key@
            &&& size == match f.size {
                Some(n) => n,
                None => 0,
            }
            &&& opt_text(last_modified) == match f.modified_secs {
                Some(t) => modified_label(t),
                None => None,
            }
        },
        _ => false,
    }
}

/// The entries of one listing: a folder for each reported common prefix,
/// then a file for each reported object, both in the order reported.
pub fn objects_from_listing(prefixes: &Vec<Option<String>>, files: &Vec<ListedFile>) -> (r: Vec<
    __S3Object,
>)
    ensures
        r@.len() == folder_keys(prefixes@).len() + files@.len(),
        forall|i: int|
            0 <= i < folder_keys(prefixes@).len() ==> is_folder_entry(
                #[trigger] r@[i],
                folder_keys(prefixes@)[i],
            ),
        forall|j: int|
            0 <= j < files@.len() ==> is_file_entry(
                #[trigger] r@[folder_keys(prefixes@).len() + j],
                files@[j],
            ),
{
    let mut objects: Vec<__S3Object> = Vec::new();
    let mut i: usize = 0;
    while i < prefixes.len()
        invariant
            i <= prefixes@.len(),
            objects@.len() == folder_keys(prefixes@.subrange(0, i as int)).len(),
            forall|k: int|
                0 <= k < objects@.len() ==> is_folder_entry(
                    #[trigger] objects@[k],
                    folder_keys(prefixes@.subrange(0, i as int))[k],
                ),
        decreases prefixes@.len() - i,
    {
        let ghost before = prefixes@.subrange(0, i as int);
        assert(prefixes@.subrange(0, i + 1).drop_last() =~= before);
        match &prefixes[i] {
            Some(p) => {
                objects.push(__S3Object::Folder(p.clone()));
            },
            None => {},
        }
        i = i + 1;
    }
    assert(prefixes@.subrange(0, prefixes@.len() as int) =~= prefixes@);
    let nf = objects.len();
    let mut j: usize = 0;
    while j < files.len()
        invariant
            j <= files@.len(),
            nf == folder_keys(prefixes@).len(),
            objects@.len() == nf + j,
            forall|k: int|
                0 <= k < nf ==> is_folder_entry(#[trigger] objects@[k], folder_keys(prefixes@)[k]),
            forall|k: int| 0 <= k < j ==> is_file_entry(#[trigger] objects@[nf + k], files@[k]),
        decreases files@.len() - j,
    {
        let f = &files[j];
        let size = match f.size {
            Some(n) => n,
            None => 0,
        };
        let last_modified = match f.modified_secs {
            Some(t) => format_modified(t),
            None => None,
        };
        objects.push(__S3Object::File { key: f.key.clone(), size, last_modified });
        proof {
            assert(is_file_entry(objects@[nf + j], files@[j as int]));
        }
        j = j + 1;
    }
    objects
}

} // verus!
