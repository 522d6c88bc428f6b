//! The authority under which an opened container is addressed: a URL-safe
//! token made from its file name.
use vstd::prelude::*;
use vstd::string::*;
use crate::manifest::key_is;
use crate::resolve::{trim_end_slashes, trim_slashes};

verus! {

/// What `str::to_lowercase` makes of `s`.
pub uninterp spec fn lower_of(s: Seq<char>) -> Seq<char>;

/// Relies on `str::to_lowercase`: the result depends on the characters alone.
#[verifier::external_body]
fn lowercase(s: &str) -> (r: String)
    ensures
        r@ == lower_of(s@),
{
    s.to_lowercase()
}

/// The last component of a `/`-separated path: what follows the last `/`.
pub open spec fn base_name(p: Seq<char>) -> Seq<char>
    decreases p.len(),
{
    if p.len() == 0 {
        p
    } else if p.last() == '/' {
        Seq::empty()
    } else {
        base_name(p.drop_last()).push(p.last())
    }
}

/// ASCII letters, digits, `-` and `.` stay; any other character becomes `-`.
pub open spec fn authority_char(c: char) -> char {
    if ('a' <= c && c <= 'z') || ('A' <= c && c <= 'Z') || ('0' <= c && c <= '9') || c == '-'
        || c == '.' {
        c
    } else {
        '-'
    }
}

pub open spec fn trim_start_hyphens(s: Seq<char>) -> Seq<char>
    decreases s.len(),
{
    if s.len() > 0 && s[0] == '-' {
        trim_start_hyphens(s.drop_first())
    } else {
        s
    }
}

pub open spec fn trim_end_hyphens(s: Seq<char>) -> Seq<char>
    decreases s.len(),
{
    if s.len() > 0 && s.last() == '-' {
        trim_end_hyphens(s.drop_last())
    } else {
        s
    }
}

/// The authority made from an already lower-cased name.
pub open spec fn normalize(s: Seq<char>) -> Seq<char> {
    trim_end_hyphens(trim_start_hyphens(s.map_values(|c: char| authority_char(c))))
}

fn exec_authority_char(c: char) -> (r: char)
    ensures
        r == authority_char(c),
{
    if ('a' <= c && c <= 'z') || ('A' <= c && c <= 'Z') || ('0' <= c && c <= '9') || c == '-'
        || c == '.' {
        c
    } else {
        '-'
    }
}

/// The file name of `path`: its last component once trailing slashes are
/// set aside; none where that is empty or `..`.
pub open spec fn file_name(p: Seq<char>) -> Option<Seq<char>> {
    let b = base_name(trim_slashes(p));
    if b.len() == 0 || b == ".."@ {
        None
    } else {
        Some(b)
    }
}

/// The authority of the container at `p`: `tile` where the path names no
/// file.
pub open spec fn authority_spec(p: Seq<char>) -> Seq<char> {
    match file_name(p) {
        Some(b) => normalize(lower_of(b)),
        None => "tile"@,
    }
}

/// Maps each character of `lowered` to itself or `-` and trims the hyphens
/// at both ends.
pub fn authority_from_lowered(lowered: &str) -> (r: String)
    ensures
        r@ == normalize(lowered@),
{
    let ghost m = lowered@.map_values(|c: char| authority_char(c));
    let n = lowered.unicode_len();
    let mut start: usize = 0;
    assert(m.skip(0) =~= m);
    while start < n && exec_authority_char(lowered.get_char(start)) == '-'
        invariant
            n == lowered@.len(),
            m.len() == n,
            m == lowered@.map_values(|c: char| authority_char(c)),
            start <= n,
            trim_start_hyphens(m) == trim_start_hyphens(m.skip(start as int)),
        decreases n - start,
    {
        assert(m.skip(start as int).drop_first() =~= m.skip(start + 1));
        start = start + 1;
    }
    assert(trim_start_hyphens(m) == m.skip(start as int));
    let mut end: usize = n;
    assert(m.subrange(start as int, n as int) =~= m.skip(start as int));
    while end > start && exec_authority_char(lowered.get_char(end - 1)) == '-'
        invariant
            n == lowered@.len(),
            m.len() == n,
            m == lowered@.map_values(|c: char| authority_char(c)),
            start <= end <= n,
            normalize(lowered@) == trim_end_hyphens(m.subrange(start as int, end as int)),
        decreases end,
    {
        assert(m.subrange(start as int, end as int).drop_last() =~= m.subrange(
            start as int,
            end - 1,
        ));
        end = end - 1;
    }
    assert(normalize(lowered@) == m.subrange(start as int, end as int));
    let mut out = String::new();
    let mut i: usize = start;
    while i < end
        invariant
            n == lowered@.len(),
            m.len() == n,
            m == lowered@.map_values(|c: char| authority_char(c)),
            start <= i <= end <= n,
            out@ == m.subrange(start as int, i as int),
        decreases end - i,
    {
        let c = lowered.get_char(i);
        if exec_authority_char(c) == c {
            out.append(lowered.substring_char(i, i + 1));
        } else {
            out.append("-");
            proof {
                reveal_strlit("-");
            }
        }
        assert(out@ =~= m.subrange(start as int, i + 1));
        i = i + 1;
    }
    out
}

/// The authority of the container at `path`: its file name (extension
/// included), lower-cased, with every character other than an ASCII letter,
/// digit, `-` or `.` turned into `-`, and the hyphens at both ends trimmed;
/// `tile` where the path names no file.
pub fn authority_from_path(path: &str) -> (r: String)
    ensures
        r@ == authority_spec(path@),
{
    let owned = path.to_owned();
    let trimmed = trim_end_slashes(&owned);
    let t = trimmed.as_str();
    let n = t.unicode_len();
    let mut from: usize = n;
    assert(t@.take(n as int) =~= t@);
    while from > 0 && t.get_char(from - 1) != '/'
        invariant
            n == t@.len(),
            from <= n,
            base_name(t@) == base_name(t@.take(from as int)) + t@.subrange(from as int, n as int),
        decreases from,
    {
        let ghost s = t@.take(from as int);
        assert(s.drop_last() =~= t@.take(from - 1));
        assert(s.last() == t@[from - 1]);
        assert(base_name(s) == base_name(t@.take(from - 1)).push(t@[from - 1]));
        assert(t@.subrange(from - 1, n as int) =~= seq![t@[from - 1]] + t@.subrange(
            from as int,
            n as int,
        ));
        assert(base_name(t@.take(from - 1)).push(t@[from - 1]) + t@.subrange(from as int, n as int)
            =~= base_name(t@.take(from - 1)) + t@.subrange(from - 1, n as int));
        from = from - 1;
    }
    assert(base_name(t@.take(from as int)) =~= Seq::<char>::empty());
    assert(base_name(t@) =~= t@.subrange(from as int, n as int));
    let base = t.substring_char(from, n).to_owned();
    if n == from || key_is(&base, "..") {
        proof {
            reveal_strlit("tile");
        }
        return "tile".to_owned();
    }
    let lowered = lowercase(base.as_str());
    authority_from_lowered(lowered.as_str())
}

} // verus!
