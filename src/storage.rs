use vstd::prelude::*;
use vstd::string::*;

use crate::text::{ends_with, has_prefix, has_suffix};

verus! {

/// `p` without a leading `gs://`.
pub open spec fn without_gs_scheme(p: Seq<char>) -> Seq<char> {
    if has_prefix(p, "gs://"@) {
        p.skip(5)
    } else {
        p
    }
}

/// Relies on regex's `Regex::replace` with the pattern `^gs://`: its only
/// possible match is a leading `gs://`, and the first match is replaced by
/// nothing.
#[verifier::external_body]
fn strip_gs_scheme(path: &str) -> (r: String)
    ensures
        r@ == without_gs_scheme(path@),
{
    regex::Regex::new(r"^gs://").unwrap().replace(path, "").into_owned()
}

/// Whether no character of `s` before index `i` is a slash.
pub open spec fn slash_free(s: Seq<char>, i: int) -> bool {
    forall|j: int| 0 <= j < i ==> s[j] != '/'
}

/// The bucket of an object path: the text before its first slash.
pub open spec fn bucket_of(s: Seq<char>) -> Seq<char> {
    if exists|i: int| 0 <= i < s.len() && s[i] == '/' && slash_free(s, i) {
        s.take(choose|i: int| 0 <= i < s.len() && s[i] == '/' && slash_free(s, i))
    } else {
        s
    }
}

/// The object name of an object path: the text after its first slash.
pub open spec fn object_of(s: Seq<char>) -> Seq<char> {
    if exists|i: int| 0 <= i < s.len() && s[i] == '/' && slash_free(s, i) {
        s.skip((choose|i: int| 0 <= i < s.len() && s[i] == '/' && slash_free(s, i)) + 1)
    } else {
        Seq::empty()
    }
}

/// Splits a storage path, with or without its `gs://` scheme, into bucket
/// and object name.
pub fn gcs_split_path(path: &String) -> (r: (String, String))
    ensures
        r.0@ == bucket_of(without_gs_scheme(path@)),
        r.1@ == object_of(without_gs_scheme(path@)),
{
    let s = strip_gs_scheme(path.as_str());
    let t = s.as_str();
    let n = t.unicode_len();
    let mut i: usize = 0;
    while i < n
        invariant
            n == t@.len(),
            t@ == without_gs_scheme(path@),
            i <= n,
            slash_free(t@, i as int),
        decreases n - i,
    {
        if t.get_char(i) == '/' {
            proof {
                assert(0 <= i < t@.len() && t@[i as int] == '/' && slash_free(t@, i as int));
                let k = choose|k: int| 0 <= k < t@.len() && t@[k] == '/' && slash_free(t@, k);
                assert(k == i) by {
                    if k < i {
                        assert(t@[k] != '/');
                    } else if k > i {
                        assert(t@[i as int] != '/');
                    }
                }
            }
            let bucket = String::from_str(t.substring_char(0, i));
            let object = String::from_str(t.substring_char(i + 1, n));
            assert(t@.subrange(0, i as int) =~= t@.take(i as int));
            assert(t@.subrange(i + 1, n as int) =~= t@.skip(i + 1));
            return (bucket, object);
        }
        i = i + 1;
    }
    (String::from_str(t), String::new())
}

/// The last `/`-separated segment of `s`.
pub open spec fn last_segment(s: Seq<char>) -> Seq<char>
    decreases s.len(),
{
    if s.len() == 0 {
        s
    } else if s.last() == '/' {
        Seq::empty()
    } else {
        last_segment(s.drop_last()).push(s.last())
    }
}

/// The local file name a downloaded object is saved under: the last segment
/// of its object name.
pub fn file_name_of(object: &String) -> (r: String)
    ensures
        r@ == last_segment(object@),
{
    let t = object.as_str();
    let n = t.unicode_len();
    let mut start: usize = 0;
    let mut i: usize = 0;
    assert(t@.take(0) =~= Seq::<char>::empty());
    while i < n
        invariant
            n == t@.len(),
            start <= i <= n,
            t@.subrange(start as int, i as int) == last_segment(t@.take(i as int)),
        decreases n - i,
    {
        assert(t@.take(i + 1).drop_last() =~= t@.take(i as int));
        if t.get_char(i) == '/' {
            start = i + 1;
            assert(t@.subrange(start as int, i + 1) =~= Seq::<char>::empty());
        } else {
            assert(t@.subrange(start as int, i + 1) =~= t@.subrange(start as int, i as int).push(t@[i as int]));
        }
        i = i + 1;
    }
    assert(t@.take(n as int) =~= t@);
    String::from_str(t.substring_char(start, n))
}

/// The first `n` names that end in `suffix`, in order.
pub open spec fn names_with_suffix(names: Seq<String>, n: int, suffix: Seq<char>) -> Seq<Seq<char>>
    decreases n,
{
    if n <= 0 {
        Seq::empty()
    } else {
        let before = names_with_suffix(names, n - 1, suffix);
        if has_suffix(names[n - 1]@, suffix) {
            before.push(names[n - 1]@)
        } else {
            before
        }
    }
}

/// The names of a listing that end in `suffix`, in order.
pub fn files_of_type(names: &Vec<String>, suffix: &str) -> (r: Vec<String>)
    ensures
        r@.map_values(|s: String| s@) == names_with_suffix(names@, names@.len() as int, suffix@),
{
    let mut r: Vec<String> = Vec::new();
    let mut i: usize = 0;
    assert(r@.map_values(|s: String| s@) =~= Seq::<Seq<char>>::empty());
    while i < names.len()
        invariant
            i <= names@.len(),
            r@.map_values(|s: String| s@) == names_with_suffix(names@, i as int, suffix@),
        decreases names@.len() - i,
    {
        if ends_with(names[i].as_str(), suffix) {
            let ghost before = r@.map_values(|s: String| s@);
            r.push(names[i].clone());
            assert(r@.map_values(|s: String| s@) =~= before.push(names@[i as int]@));
        }
        i = i + 1;
    }
    r
}

} // verus!
