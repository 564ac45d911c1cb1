//! What the stash reads of a listing of its bucket.
//!
//! The bucket lists its objects with a key, an entity tag and a size
//! each. This module picks the compressed memdb files among them and
//! works out the names under which the bucket is asked for a file.
//! Talking to the bucket is left to the program that uses the library.
use vstd::prelude::*;
use vstd::string::*;
use crate::memdb::stash::{RemoteSdk, RemoteSdkView};
use crate::sdk::{opt_view, spec_from_filename, SdkInfo};
use crate::text::{
    chars_equal, chars_to_string, ends_with, last_index_of, rfind_char, str_chars,
};

verus! {

/// An object as the bucket lists it.
pub struct S3Object {
    pub key: Option<String>,
    pub e_tag: Option<String>,
    pub size: Option<i64>,
}

/// What stands behind the last slash of a key, or the key where it
/// holds no slash.
pub open spec fn spec_filename_from_key(key: Seq<char>) -> Seq<char> {
    key.subrange(last_index_of(key, '/') + 1, key.len() as int)
}

/// The name of the file of a key: what stands behind its last slash.
pub fn filename_from_key(key: &str) -> (r: &str)
    ensures
        r@ == spec_filename_from_key(key@),
{
    let chars = str_chars(key);
    let n = chars.len();
    assert(chars@.subrange(0, n as int) =~= chars@);
    match rfind_char(chars.as_slice(), 0, n, '/') {
        Some(i) => key.substring_char(i + 1, n),
        None => {
            assert(key@.subrange(0, n as int) =~= key@);
            key
        },
    }
}

/// An entity tag without the quotation marks around it; `None` where
/// it does not stand between quotation marks or is empty.
pub open spec fn spec_unquote_etag(etag: Option<Seq<char>>) -> Option<Seq<char>> {
    match etag {
        Some(e) => if e.len() > 2 && e[0] == '"' && e.last() == '"' {
            Some(e.subrange(1, e.len() - 1))
        } else {
            None
        },
        None => None,
    }
}

/// Takes the quotation marks off an entity tag.
pub fn unquote_etag(quoted_etag: Option<String>) -> (r: Option<String>)
    ensures
        opt_view(r) == spec_unquote_etag(opt_view(quoted_etag)),
{
    match quoted_etag {
        Some(etag) => {
            let chars = str_chars(etag.as_str());
            let n = chars.len();
            if n > 2 && chars[0] == '"' && chars[n - 1] == '"' {
                Some(chars_to_string(chars.as_slice(), 1, n - 1))
            } else {
                None
            }
        },
        None => None,
    }
}

/// `s` without the slashes at its start.
pub open spec fn trim_start_slashes(s: Seq<char>) -> Seq<char>
    decreases s.len(),
{
    if s.len() > 0 && s[0] == '/' {
        trim_start_slashes(s.skip(1))
    } else {
        s
    }
}

/// `s` without the slashes at its end.
pub open spec fn trim_end_slashes(s: Seq<char>) -> Seq<char>
    decreases s.len(),
{
    if s.len() > 0 && s.last() == '/' {
        trim_end_slashes(s.drop_last())
    } else {
        s
    }
}

/// The prefix of the keys of a bucket URL: its path without the
/// slashes around it, followed by one slash; empty for an empty path.
pub open spec fn spec_bucket_prefix(path: Seq<char>) -> Seq<char> {
    let inner = trim_end_slashes(trim_start_slashes(path));
    if inner.len() == 0 {
        inner
    } else {
        inner + seq!['/']
    }
}

/// The range of `chars` without the slashes around it.
fn trim_slashes(chars: &[char]) -> (r: (usize, usize))
    ensures
        r.0 <= r.1 <= chars@.len(),
        chars@.subrange(r.0 as int, r.1 as int) == trim_end_slashes(trim_start_slashes(chars@)),
{
    let n = chars.len();
    let mut from: usize = 0;
    assert(chars@.subrange(0, n as int) =~= chars@);
    while from < n && chars[from] == '/'
        invariant
            0 <= from <= n,
            n == chars@.len(),
            trim_start_slashes(chars@) == trim_start_slashes(chars@.subrange(from as int, n as int)),
        decreases n - from,
    {
        assert(chars@.subrange(from as int, n as int).skip(1) =~= chars@.subrange(
            from + 1,
            n as int,
        ));
        from += 1;
    }
    let ghost rest = chars@.subrange(from as int, n as int);
    assert(trim_start_slashes(chars@) == rest);
    let mut to: usize = n;
    assert(rest.take(rest.len() as int) =~= rest);
    while to > from && chars[to - 1] == '/'
        invariant
            from <= to <= n,
            n == chars@.len(),
            rest == chars@.subrange(from as int, n as int),
            trim_end_slashes(rest) == trim_end_slashes(rest.take(to - from)),
        decreases to,
    {
        assert(rest.take(to - from).drop_last() =~= rest.take(to - from - 1));
        to -= 1;
    }
    assert(rest.take(to - from) =~= chars@.subrange(from as int, to as int));
    (from, to)
}

/// The prefix of the keys of a bucket URL with the given path.
pub fn bucket_prefix(path: &str) -> (r: String)
    ensures
        r@ == spec_bucket_prefix(path@),
{
    let chars = str_chars(path);
    let (from, to) = trim_slashes(chars.as_slice());
    let mut inner = chars_to_string(chars.as_slice(), from, to);
    if from < to {
        inner.push('/');
    }
    inner
}

/// The key under which the bucket holds a file: the prefix without the
/// slashes at its end, a slash, and the name of the file.
pub open spec fn spec_download_key(prefix: Seq<char>, filename: Seq<char>) -> Seq<char> {
    trim_end_slashes(prefix) + seq!['/'] + filename
}

/// The key under which the bucket holds a file.
pub fn download_key(prefix: &str, filename: &str) -> (r: String)
    ensures
        r@ == spec_download_key(prefix@, filename@),
{
    let chars = str_chars(prefix);
    let n = chars.len();
    let mut to: usize = n;
    assert(chars@.take(n as int) =~= chars@);
    while to > 0 && chars[to - 1] == '/'
        invariant
            0 <= to <= n,
            n == chars@.len(),
            trim_end_slashes(chars@) == trim_end_slashes(chars@.take(to as int)),
        decreases to,
    {
        assert(chars@.take(to as int).drop_last() =~= chars@.take(to - 1));
        to -= 1;
    }
    assert(chars@.take(to as int) =~= chars@.subrange(0, to as int));
    let mut key = chars_to_string(chars.as_slice(), 0, to);
    key.push('/');
    key.append(filename);
    assert(key@ =~= spec_download_key(prefix@, filename@));
    key
}

/// The extension of a compressed memdb file.
pub open spec fn memdbz() -> Seq<char> {
    seq!['.', 'm', 'e', 'm', 'd', 'b', 'z']
}

/// The SDK that a listed object holds: its key must end in `.memdbz`,
/// the name of its file must name an SDK, its entity tag must stand
/// between quotation marks, and it must have a size.
pub open spec fn spec_object_to_remote_sdk(
    key: Option<Seq<char>>,
    e_tag: Option<Seq<char>>,
    size: Option<i64>,
) -> Option<RemoteSdkView> {
    match (key, spec_unquote_etag(e_tag), size) {
        (Some(k), Some(etag), Some(sz)) => if ends_with(k, memdbz()) {
            match spec_from_filename(spec_filename_from_key(k)) {
                Some(info) => Some(
                    RemoteSdkView {
                        filename: spec_filename_from_key(k),
                        info,
                        size: sz as u64,
                        etag,
                    },
                ),
                None => None,
            }
        } else {
            None
        },
        _ => None,
    }
}

/// The optional entry that an optional `RemoteSdk` stands for.
pub open spec fn opt_remote_view(o: Option<RemoteSdk>) -> Option<RemoteSdkView> {
    match o {
        Some(sdk) => Some(sdk@),
        None => None,
    }
}

/// Reads a listed object as an SDK.
pub fn object_to_remote_sdk(obj: &S3Object) -> (r: Option<RemoteSdk>)
    ensures
        opt_remote_view(r) == spec_object_to_remote_sdk(
            opt_view(obj.key),
            opt_view(obj.e_tag),
            obj.size,
        ),
{
    let key = match &obj.key {
        Some(key) => key,
        None => {
            return None;
        },
    };
    let chars = str_chars(key.as_str());
    let n = chars.len();
    let ext = vec!['.', 'm', 'e', 'm', 'd', 'b', 'z'];
    assert(ext@ =~= memdbz());
    if !(n >= 7 && chars_equal(chars.as_slice(), n - 7, n, ext.as_slice())) {
        return None;
    }
    let filename = filename_from_key(key.as_str());
    let info = match SdkInfo::from_filename(filename) {
        Some(info) => info,
        None => {
            return None;
        },
    };
    let etag = match unquote_etag(
        match &obj.e_tag {
            Some(e) => Some(e.clone()),
            None => None,
        },
    ) {
        Some(etag) => etag,
        None => {
            return None;
        },
    };
    let size = match obj.size {
        Some(size) => size,
        None => {
            return None;
        },
    };
    Some(RemoteSdk::new(String::from_str(filename), info, etag, #[verifier::truncate] (size as u64)))
}

/// The SDKs among the first `n` objects of a listing, in their order.
pub open spec fn spec_remote_sdks(objects: Seq<S3Object>, n: int) -> Seq<RemoteSdkView>
    decreases n,
{
    if n <= 0 {
        Seq::empty()
    } else {
        match spec_object_to_remote_sdk(
            opt_view(objects[n - 1].key),
            opt_view(objects[n - 1].e_tag),
            objects[n - 1].size,
        ) {
            Some(sdk) => spec_remote_sdks(objects, n - 1).push(sdk),
            None => spec_remote_sdks(objects, n - 1),
        }
    }
}

/// Picks the SDKs from a listing of the bucket.
pub fn remote_sdks(objects: &Vec<S3Object>) -> (r: Vec<RemoteSdk>)
    ensures
        crate::memdb::stash::sdks_view(r@) == spec_remote_sdks(objects@, objects@.len() as int),
{
    let mut rv: Vec<RemoteSdk> = Vec::new();
    let mut i: usize = 0;
    assert(crate::memdb::stash::sdks_view(rv@) =~= Seq::<RemoteSdkView>::empty());
    while i < objects.len()
        invariant
            0 <= i <= objects@.len(),
            crate::memdb::stash::sdks_view(rv@) == spec_remote_sdks(objects@, i as int),
        decreases objects@.len() - i,
    {
        match object_to_remote_sdk(&objects[i]) {
            Some(sdk) => {
                let ghost before = crate::memdb::stash::sdks_view(rv@);
                let ghost view = sdk@;
                rv.push(sdk);
                assert(crate::memdb::stash::sdks_view(rv@) =~= before.push(view));
            },
            None => {},
        }
        i += 1;
    }
    rv
}

} // verus!
