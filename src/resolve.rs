//! Finding the resource that answers a request path, and where its bytes lie.
use vstd::prelude::*;
use vstd::string::*;
use crate::container::TileContent;
use crate::error::TileError;
use crate::manifest::{Resource, key_is};

verus! {

pub open spec fn ends_with_slash(p: Seq<char>) -> bool {
    p.len() > 0 && p.last() == '/'
}

/// `p` without its trailing slashes.
pub open spec fn trim_slashes(p: Seq<char>) -> Seq<char>
    decreases p.len(),
{
    if ends_with_slash(p) {
        trim_slashes(p.drop_last())
    } else {
        p
    }
}

/// An empty request path stands for the root.
pub open spec fn request_path(p: Seq<char>) -> Seq<char> {
    if p.len() == 0 {
        "/"@
    } else {
        p
    }
}

/// The keys tried for a request path, in order: the path itself, without
/// trailing slashes, with one appended, and `/index.html` for the root.
pub open spec fn candidates(p: Seq<char>) -> Seq<Seq<char>> {
    let q = request_path(p);
    seq![
        q,
        trim_slashes(q),
        if ends_with_slash(q) {
            q
        } else {
            q + "/"@
        },
        if q == "/"@ {
            "/index.html"@
        } else {
            q
        },
    ]
}

/// The first of `keys` that `m` holds.
pub open spec fn first_key<V>(m: Map<Seq<char>, V>, keys: Seq<Seq<char>>) -> Option<Seq<char>>
    decreases keys.len(),
{
    if keys.len() == 0 {
        None
    } else if m.contains_key(keys[0]) {
        Some(keys[0])
    } else {
        first_key(m, keys.drop_first())
    }
}

pub(crate) fn trim_end_slashes(p: &String) -> (r: String)
    ensures
        r@ == trim_slashes(p@),
{
    let s = p.as_str();
    let mut n = s.unicode_len();
    assert(s@.take(n as int) =~= s@);
    while n > 0 && s.get_char(n - 1) == '/'
        invariant
            n <= s@.len(),
            s@ == p@,
            trim_slashes(p@) == trim_slashes(s@.take(n as int)),
        decreases n,
    {
        assert(s@.take(n as int).drop_last() =~= s@.take(n - 1));
        n = n - 1;
    }
    assert(s@.take(n as int) =~= s@.subrange(0, n as int));
    s.substring_char(0, n).to_owned()
}

fn candidate_keys(raw: &String) -> (r: Vec<String>)
    ensures
        r@.len() == 4,
        forall|j: int| 0 <= j < 4 ==> (#[trigger] r@[j])@ == candidates(raw@)[j],
{
    let path = if raw.as_str().unicode_len() == 0 {
        "/".to_owned()
    } else {
        raw.clone()
    };
    let len = path.as_str().unicode_len();
    let slash = len > 0 && path.as_str().get_char(len - 1) == '/';
    let second = trim_end_slashes(&path);
    let third = if slash {
        path.clone()
    } else {
        let mut t = path.clone();
        t.append("/");
        t
    };
    let fourth = if key_is(&path, "/") {
        "/index.html".to_owned()
    } else {
        path.clone()
    };
    let mut r: Vec<String> = Vec::new();
    r.push(path);
    r.push(second);
    r.push(third);
    r.push(fourth);
    r
}

impl TileContent {
    /// Where the payload of the block under `cid` lies in the file.
    pub fn block_range(&self, cid: &String) -> (r: Result<(u64, u64), TileError>)
        requires
            self.wf(),
        ensures
            match r {
                Ok(p) => self.index@.contains_key(cid@) && self.index@[cid@] == p,
                Err(x) => !self.index@.contains_key(cid@) && x == TileError::BlockNotFound,
            },
    {
        match self.index.get(cid) {
            Some(p) => Ok(*p),
            None => Err(TileError::BlockNotFound),
        }
    }

    /// The resource that answers `path` (the first candidate key that the
    /// manifest holds), with the offset and length of its block's payload.
    pub fn resolve(&self, path: &String) -> (r: Result<(&Resource, u64, u64), TileError>)
        requires
            self.wf(),
        ensures
            match first_key(self.masl@.resources, candidates(path@)) {
                None => r matches Err(x) && x == TileError::NoResource,
                Some(k) => {
                    let res = self.masl@.resources[k];
                    if self.index@.contains_key(res.src) {
                        r matches Ok(t) && t.0@ == res && (t.1, t.2) == self.index@[res.src]
                    } else {
                        r matches Err(x) && x == TileError::BlockNotFound
                    }
                },
            },
    {
        let keys = candidate_keys(path);
        let ghost cs = candidates(path@);
        let mut i: usize = 0;
        assert(cs.skip(0) =~= cs);
        while i < keys.len()
            invariant
                keys@.len() == 4,
                cs == candidates(path@),
                forall|j: int| 0 <= j < 4 ==> (#[trigger] keys@[j])@ == cs[j],
                self.wf(),
                i <= 4,
                first_key(self.masl@.resources, cs) == first_key(
                    self.masl@.resources,
                    cs.skip(i as int),
                ),
            decreases 4 - i,
        {
            assert(cs.skip(i as int)[0] == cs[i as int]);
            assert(cs.skip(i as int).drop_first() =~= cs.skip(i + 1));
            match self.masl.resources.get(&keys[i]) {
                Some(res) => {
                    let (offset, len) = match self.block_range(&res.src) {
                        Ok(p) => p,
                        Err(x) => return Err(x),
                    };
                    return Ok((res, offset, len));
                },
                None => {},
            }
            i = i + 1;
        }
        assert(cs.skip(4).len() == 0);
        Err(TileError::NoResource)
    }
}

} // verus!
