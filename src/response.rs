//! The headers of a successful answer to a resource request.
use vstd::prelude::*;
use crate::manifest::{Resource, ResourceView, key_is};

verus! {

/// The declared content type, or `application/octet-stream` if none is.
pub open spec fn content_type_of(r: ResourceView) -> Seq<char> {
    if r.headers.contains_key("content-type"@) {
        r.headers["content-type"@]
    } else {
        "application/octet-stream"@
    }
}

/// A declared header that is passed on as it stands: all but `src` and
/// `content-type`, which has a place of its own.
pub open spec fn forwarded(k: Seq<char>) -> bool {
    k != "content-type"@ && k != "src"@
}

/// The response headers for `resource`: its content type first, then a
/// permissive cross-origin header, then each other declared header once.
pub fn response_headers(resource: &Resource) -> (r: Vec<(String, String)>)
    requires
        resource.headers.wf(),
    ensures
        r@.len() >= 2,
        r@[0].0@ == "content-type"@,
        r@[0].1@ == content_type_of(resource@),
        r@[1].0@ == "access-control-allow-origin"@,
        r@[1].1@ == "*"@,
        forall|m: int|
            2 <= m < r@.len() ==> forwarded(#[trigger] r@[m].0@)
                && resource@.headers.contains_key(r@[m].0@) && resource@.headers[r@[m].0@]
                == r@[m].1@,
        forall|k: Seq<char>|
            #[trigger] resource@.headers.contains_key(k) && forwarded(k) ==> exists|m: int|
                2 <= m < r@.len() && r@[m].0@ == k,
        forall|a: int, b: int| 2 <= a < b < r@.len() ==> r@[a].0@ != r@[b].0@,
{
    let entries = &resource.headers.entries;
    let key = "content-type".to_owned();
    let content_type = match resource.headers.get(&key) {
        Some(v) => v.clone(),
        None => "application/octet-stream".to_owned(),
    };
    let mut out: Vec<(String, String)> = Vec::new();
    out.push((key, content_type));
    out.push(("access-control-allow-origin".to_owned(), "*".to_owned()));
    let ghost mut from: Seq<int> = Seq::empty();
    let mut i: usize = 0;
    while i < entries.len()
        invariant
            resource.headers.wf(),
            *entries == resource.headers.entries,
            i <= entries@.len(),
            out@.len() == from.len() + 2,
            out@[0].0@ == "content-type"@,
            out@[0].1@ == content_type_of(resource@),
            out@[1].0@ == "access-control-allow-origin"@,
            out@[1].1@ == "*"@,
            forall|m: int|
                0 <= m < from.len() ==> 0 <= #[trigger] from[m] < i && entries@[from[m]].0@
                    == out@[m + 2].0@ && entries@[from[m]].1@ == out@[m + 2].1@ && forwarded(
                    out@[m + 2].0@,
                ),
            forall|a: int, b: int| 0 <= a < b < from.len() ==> from[a] < from[b],
            forall|j: int|
                0 <= j < i && forwarded(#[trigger] entries@[j].0@) ==> exists|m: int|
                    0 <= m < from.len() && from[m] == j,
        decreases entries@.len() - i,
    {
        let entry = &entries[i];
        let ghost before = from;
        if !key_is(&entry.0, "content-type") && !key_is(&entry.0, "src") {
            proof {
                from = from.push(i as int);
            }
            out.push((entry.0.clone(), entry.1.clone()));
        }
        assert forall|j: int|
            0 <= j < i + 1 && forwarded(#[trigger] entries@[j].0@) implies exists|m: int|
                0 <= m < from.len() && from[m] == j by {
            if j < i {
                let m = choose|m: int| 0 <= m < before.len() && before[m] == j;
                assert(from[m] == j);
            } else {
                assert(from[from.len() - 1] == j);
            }
        }
        i = i + 1;
    }
    proof {
        assert forall|m: int| 2 <= m < out@.len() implies forwarded(#[trigger] out@[m].0@)
            && resource@.headers.contains_key(out@[m].0@) && resource@.headers[out@[m].0@]
            == out@[m].1@ by {
            let j = from[m - 2];
            resource.headers.lemma_entry(j);
        }
        assert forall|k: Seq<char>|
            #[trigger] resource@.headers.contains_key(k) && forwarded(k) implies exists|m: int|
                2 <= m < out@.len() && out@[m].0@ == k by {
            let j = resource.headers.index_of(k);
            assert(entries@[j].0@ == k);
            let m = choose|m: int| 0 <= m < from.len() && from[m] == j;
            assert(out@[m + 2].0@ == k);
        }
        assert forall|a: int, b: int| 2 <= a < b < out@.len() implies out@[a].0@ != out@[b].0@ by {
            assert(from[a - 2] < from[b - 2]);
        }
    }
    out
}

} // verus!
