//! A container file: `<varint header length><header><block>*`, each block
//! `<varint length><content identifier><payload>`, a zero length ending the
//! blocks early. Reading one yields its manifest and an index from each
//! identifier's text to where its payload lies in the file.
use vstd::prelude::*;
use crate::content_id::{cid_prefix, read_cid};
use crate::error::TileError;
use crate::manifest::{Masl, MaslView, parse_masl, parse_masl_spec};
use crate::strmap::StrMap;
use crate::varint::{read_uvarint, uvarint_spec};

verus! {

/// A parsed container: where its file is, its manifest, and for each block
/// identifier (as canonical text) the offset and length of the payload.
#[derive(Debug)]
pub struct TileContent {
    pub path: String,
    pub masl: Masl,
    pub index: StrMap<(u64, u64)>,
}

pub struct TileView {
    pub path: Seq<char>,
    pub masl: MaslView,
    pub index: Map<Seq<char>, (u64, u64)>,
}

impl View for TileContent {
    type V = TileView;

    open spec fn view(&self) -> TileView {
        TileView { path: self.path@, masl: self.masl@, index: self.index@ }
    }
}

/// What is reported when a container has been opened: the authority it is
/// addressed by and its manifest.
#[derive(Debug, Clone)]
pub struct TileOpenedPayload {
    pub authority: String,
    pub masl: Masl,
}

impl TileContent {
    pub open spec fn wf(&self) -> bool {
        self.masl.wf() && self.index.wf()
    }
}

/// The index that the blocks from `pos` on add to `idx`, in file order, a
/// later block under the same identifier replacing an earlier one.
pub open spec fn scan_blocks(data: Seq<u8>, pos: nat, idx: Map<Seq<char>, (u64, u64)>) -> Result<
    Map<Seq<char>, (u64, u64)>,
    TileError,
>
    decreases data.len() - pos,
{
    if pos >= data.len() {
        Ok(idx)
    } else {
        match uvarint_spec(data.skip(pos as int)) {
            None => Err(TileError::BlockLength(pos as usize)),
            Some(h) => {
                let len = h.0 as nat;
                let start = (pos + h.1) as nat;
                if len == 0 {
                    Ok(idx)
                } else if start + len > data.len() {
                    Err(TileError::BlockTooLong(start as usize))
                } else {
                    match cid_prefix(data.subrange(start as int, (start + len) as int)) {
                        None => Err(TileError::BadCid(start as usize)),
                        Some(c) => if c.1 <= len {
                            scan_blocks(
                                data,
                                (start + len) as nat,
                                idx.insert(c.0, ((start + c.1) as u64, (len - c.1) as u64)),
                            )
                        } else {
                            Err(TileError::BadCid(start as usize))
                        },
                    }
                }
            },
        }
    }
}

/// What the scan from `pos` adds to `idx` lies inside the file and holds at
/// most one entry per block read.
proof fn lemma_scan_within(data: Seq<u8>, pos: nat, idx: Map<Seq<char>, (u64, u64)>)
    requires
        data.len() <= u64::MAX,
        idx.dom().finite(),
        forall|k: Seq<char>| #[trigger] idx.contains_key(k) ==> idx[k].0 + idx[k].1 <= data.len(),
        scan_blocks(data, pos, idx) is Ok,
    ensures
        ({
            let out = scan_blocks(data, pos, idx)->Ok_0;
            &&& out.dom().finite()
            &&& out.dom().len() <= idx.dom().len() + block_count(data, pos)
            &&& forall|k: Seq<char>| #[trigger] out.contains_key(k) ==> out[k].0 + out[k].1 <= data.len()
        }),
    decreases data.len() - pos,
{
    if pos < data.len() {
        match uvarint_spec(data.skip(pos as int)) {
            None => {},
            Some(h) => {
                let len = h.0 as nat;
                let start = (pos + h.1) as nat;
                if len != 0 && start + len <= data.len() {
                    let c = cid_prefix(data.subrange(start as int, (start + len) as int))->Some_0;
                    let next = idx.insert(c.0, ((start + c.1) as u64, (len - c.1) as u64));
                    assert(next.dom() =~= idx.dom().insert(c.0));
                    lemma_scan_within(data, (start + len) as nat, next);
                }
            },
        }
    }
}

/// The identifiers of the blocks that the scan from `pos` reads, in file
/// order.
pub open spec fn block_ids(data: Seq<u8>, pos: nat) -> Seq<Seq<char>>
    decreases data.len() - pos,
{
    if pos >= data.len() {
        Seq::empty()
    } else {
        match uvarint_spec(data.skip(pos as int)) {
            None => Seq::empty(),
            Some(h) => {
                let len = h.0 as nat;
                let start = (pos + h.1) as nat;
                if len == 0 || start + len > data.len() {
                    Seq::empty()
                } else {
                    match cid_prefix(data.subrange(start as int, (start + len) as int)) {
                        Some(c) => seq![c.0] + block_ids(data, (start + len) as nat),
                        None => Seq::empty(),
                    }
                }
            },
        }
    }
}

/// The scan from `pos` adds to `idx` the identifiers of exactly the blocks
/// it reads.
proof fn lemma_scan_keys(data: Seq<u8>, pos: nat, idx: Map<Seq<char>, (u64, u64)>)
    requires
        scan_blocks(data, pos, idx) is Ok,
    ensures
        scan_blocks(data, pos, idx)->Ok_0.dom() == idx.dom().union(block_ids(data, pos).to_set()),
        block_ids(data, pos).len() == block_count(data, pos),
    decreases data.len() - pos,
{
    if pos < data.len() {
        match uvarint_spec(data.skip(pos as int)) {
            None => {},
            Some(h) => {
                let len = h.0 as nat;
                let start = (pos + h.1) as nat;
                if len == 0 || start + len > data.len() {
                    assert(idx.dom().union(Seq::<Seq<char>>::empty().to_set()) =~= idx.dom());
                } else {
                    let c = cid_prefix(data.subrange(start as int, (start + len) as int))->Some_0;
                    let next = idx.insert(c.0, ((start + c.1) as u64, (len - c.1) as u64));
                    let rest = block_ids(data, (start + len) as nat);
                    lemma_scan_keys(data, (start + len) as nat, next);
                    let ids = seq![c.0] + rest;
                    assert forall|a: Seq<char>| ids.contains(a) <==> (a == c.0 || rest.contains(a)) by {
                        if rest.contains(a) {
                            let j = choose|j: int| 0 <= j < rest.len() && rest[j] == a;
                            assert(ids[j + 1] == a);
                        }
                        if a == c.0 {
                            assert(ids[0] == a);
                        }
                        if ids.contains(a) {
                            let j = choose|j: int| 0 <= j < ids.len() && ids[j] == a;
                            if j > 0 {
                                assert(rest[j - 1] == a);
                            }
                        }
                    }
                    assert(next.dom().union(rest.to_set()) =~= idx.dom().union(ids.to_set()));
                }
            },
        }
    } else {
        assert(idx.dom().union(Seq::<Seq<char>>::empty().to_set()) =~= idx.dom());
    }
}

/// The entries that the blocks read from `pos` on give, in file order: each
/// identifier with the offset and length of its payload.
pub open spec fn block_entries(data: Seq<u8>, pos: nat) -> Seq<(Seq<char>, (u64, u64))>
    decreases data.len() - pos,
{
    if pos >= data.len() {
        Seq::empty()
    } else {
        match uvarint_spec(data.skip(pos as int)) {
            None => Seq::empty(),
            Some(h) => {
                let len = h.0 as nat;
                let start = (pos + h.1) as nat;
                if len == 0 || start + len > data.len() {
                    Seq::empty()
                } else {
                    match cid_prefix(data.subrange(start as int, (start + len) as int)) {
                        Some(c) => seq![(c.0, ((start + c.1) as u64, (len - c.1) as u64))]
                            + block_entries(data, (start + len) as nat),
                        None => Seq::empty(),
                    }
                }
            },
        }
    }
}

/// `out` holds under each identifier of `es` the value of its last entry,
/// and under each other key of `idx` what `idx` holds.
pub open spec fn last_wins(
    out: Map<Seq<char>, (u64, u64)>,
    idx: Map<Seq<char>, (u64, u64)>,
    es: Seq<(Seq<char>, (u64, u64))>,
) -> bool {
    &&& forall|j: int|
        0 <= j < es.len() && (forall|l: int| j < l < es.len() ==> es[l].0 != es[j].0)
            ==> out.contains_key(#[trigger] es[j].0) && out[es[j].0] == es[j].1
    &&& forall|k: Seq<char>|
        idx.contains_key(k) && (forall|l: int| 0 <= l < es.len() ==> es[l].0 != k)
            ==> #[trigger] out.contains_key(k) && out[k] == idx[k]
}

proof fn lemma_last_wins_cons(
    out: Map<Seq<char>, (u64, u64)>,
    idx: Map<Seq<char>, (u64, u64)>,
    e: (Seq<char>, (u64, u64)),
    rest: Seq<(Seq<char>, (u64, u64))>,
)
    requires
        last_wins(out, idx.insert(e.0, e.1), rest),
    ensures
        last_wins(out, idx, seq![e] + rest),
{
    let next = idx.insert(e.0, e.1);
    let es = seq![e] + rest;
    assert(es[0] == e);
    assert forall|l: int| 0 <= l < rest.len() implies es[l + 1] == #[trigger] rest[l] by {}
    assert forall|j: int|
        0 <= j < es.len() && (forall|l: int| j < l < es.len() ==> es[l].0 != es[j].0)
            implies out.contains_key(#[trigger] es[j].0) && out[es[j].0] == es[j].1 by {
        if j > 0 {
            assert(es[j] == rest[j - 1]);
            assert forall|l: int| j - 1 < l < rest.len() implies (#[trigger] rest[l]).0 != rest[j - 1].0 by {
                assert(es[l + 1] == rest[l]);
            }
        } else {
            assert forall|l: int| 0 <= l < rest.len() implies (#[trigger] rest[l]).0 != e.0 by {
                assert(es[l + 1] == rest[l]);
            }
            assert(next.contains_key(e.0));
        }
    }
    assert forall|k: Seq<char>|
        idx.contains_key(k) && (forall|l: int| 0 <= l < es.len() ==> es[l].0 != k)
            implies #[trigger] out.contains_key(k) && out[k] == idx[k] by {
        assert(es[0].0 != k);
        assert forall|l: int| 0 <= l < rest.len() implies (#[trigger] rest[l]).0 != k by {
            assert(es[l + 1] == rest[l]);
        }
        assert(next.contains_key(k) && next[k] == idx[k]);
    }
}

proof fn lemma_scan_last_wins(data: Seq<u8>, pos: nat, idx: Map<Seq<char>, (u64, u64)>)
    requires
        scan_blocks(data, pos, idx) is Ok,
    ensures
        last_wins(scan_blocks(data, pos, idx)->Ok_0, idx, block_entries(data, pos)),
    decreases data.len() - pos,
{
    if pos < data.len() {
        match uvarint_spec(data.skip(pos as int)) {
            None => {},
            Some(h) => {
                let len = h.0 as nat;
                let start = (pos + h.1) as nat;
                if len != 0 && start + len <= data.len() {
                    let c = cid_prefix(data.subrange(start as int, (start + len) as int))->Some_0;
                    let e = (c.0, ((start + c.1) as u64, (len - c.1) as u64));
                    lemma_scan_last_wins(data, (start + len) as nat, idx.insert(e.0, e.1));
                    lemma_last_wins_cons(
                        scan_blocks(data, pos, idx)->Ok_0,
                        idx,
                        e,
                        block_entries(data, (start + len) as nat),
                    );
                }
            },
        }
    }
}

/// How many blocks the scan from `pos` reads.
pub open spec fn block_count(data: Seq<u8>, pos: nat) -> nat
    decreases data.len() - pos,
{
    if pos >= data.len() {
        0
    } else {
        match uvarint_spec(data.skip(pos as int)) {
            None => 0,
            Some(h) => {
                let len = h.0 as nat;
                let start = (pos + h.1) as nat;
                if len == 0 || start + len > data.len() {
                    0
                } else {
                    1 + block_count(data, (start + len) as nat)
                }
            },
        }
    }
}

/// Where the header ends, if its length prefix reads and fits in the file.
pub open spec fn header_end(data: Seq<u8>) -> Option<nat> {
    match uvarint_spec(data) {
        Some(h) => if h.1 + h.0 <= data.len() {
            Some((h.1 + h.0) as nat)
        } else {
            None
        },
        None => None,
    }
}

/// The manifest and the index that the bytes of a container file give.
pub open spec fn parse_tile_spec(data: Seq<u8>) -> Result<(MaslView, Map<Seq<char>, (u64, u64)>), TileError> {
    match uvarint_spec(data) {
        None => Err(TileError::HeaderLength),
        Some(h) => if h.1 + h.0 > data.len() {
            Err(TileError::HeaderTooLong)
        } else {
            let end = (h.1 + h.0) as nat;
            match parse_masl_spec(data.subrange(h.1 as int, end as int)) {
                Err(x) => Err(x),
                Ok(m) => match scan_blocks(data, end, Map::empty()) {
                    Err(x) => Err(x),
                    Ok(idx) => Ok((m, idx)),
                },
            }
        },
    }
}

/// A container with `N` blocks gives an index of at most `N` entries (fewer
/// where identifiers repeat, the last block winning), and each entry's
/// payload lies inside the file.
pub proof fn lemma_index_within_file(data: Seq<u8>)
    requires
        data.len() <= u64::MAX,
        parse_tile_spec(data) is Ok,
    ensures
        header_end(data) is Some,
        ({
            let idx = parse_tile_spec(data)->Ok_0.1;
            &&& idx.dom().finite()
            &&& idx.dom().len() <= block_count(data, header_end(data)->Some_0)
            &&& forall|k: Seq<char>| #[trigger] idx.contains_key(k) ==> idx[k].0 + idx[k].1 <= data.len()
        }),
{
    let end = header_end(data)->Some_0;
    lemma_scan_within(data, end, Map::empty());
}

/// The index of a container holds exactly the identifiers of its blocks: so
/// with `N` blocks of distinct identifiers it has exactly `N` entries, and
/// an identifier that no block carries (a resource's `src` among them) is
/// not in it, though the container parses.
pub proof fn lemma_index_keys(data: Seq<u8>)
    requires
        parse_tile_spec(data) is Ok,
    ensures
        header_end(data) is Some,
        ({
            let idx = parse_tile_spec(data)->Ok_0.1;
            let ids = block_ids(data, header_end(data)->Some_0);
            &&& idx.dom() == ids.to_set()
            &&& ids.len() == block_count(data, header_end(data)->Some_0)
            &&& ids.no_duplicates() ==> idx.dom().len() == ids.len()
        }),
{
    let end = header_end(data)->Some_0;
    let ids = block_ids(data, end);
    lemma_scan_keys(data, end, Map::empty());
    assert(Map::<Seq<char>, (u64, u64)>::empty().dom().union(ids.to_set()) =~= ids.to_set());
    if ids.no_duplicates() {
        ids.unique_seq_to_set();
    }
}

/// Where several blocks carry one identifier, the index records the payload
/// of the last of them.
pub proof fn lemma_index_last_block_wins(data: Seq<u8>)
    requires
        parse_tile_spec(data) is Ok,
    ensures
        header_end(data) is Some,
        ({
            let idx = parse_tile_spec(data)->Ok_0.1;
            let es = block_entries(data, header_end(data)->Some_0);
            forall|j: int|
                0 <= j < es.len() && (forall|l: int| j < l < es.len() ==> es[l].0 != es[j].0)
                    ==> idx.contains_key(#[trigger] es[j].0) && idx[es[j].0] == es[j].1
        }),
{
    let end = header_end(data)->Some_0;
    lemma_scan_last_wins(data, end, Map::empty());
}

/// Indexes the blocks of `data` from `pos` on.
fn index_blocks(data: &[u8], pos: usize) -> (r: Result<StrMap<(u64, u64)>, TileError>)
    requires
        pos <= data@.len(),
    ensures
        match r {
            Ok(m) => m.wf() && scan_blocks(data@, pos as nat, Map::empty()) == Ok::<
                Map<Seq<char>, (u64, u64)>,
                TileError,
            >(m@),
            Err(x) => scan_blocks(data@, pos as nat, Map::empty()) == Err::<
                Map<Seq<char>, (u64, u64)>,
                TileError,
            >(x),
        },
{
    let mut index: StrMap<(u64, u64)> = StrMap::new();
    let mut at = pos;
    while at < data.len()
        invariant
            at <= data@.len(),
            index.wf(),
            scan_blocks(data@, pos as nat, Map::empty()) == scan_blocks(data@, at as nat, index@),
        decreases data@.len() - at,
    {
        let rest = vstd::slice::slice_subrange(data, at, data.len());
        assert(rest@ =~= data@.skip(at as int));
        let (block_len, n) = match read_uvarint(rest) {
            Some(p) => p,
            None => return Err(TileError::BlockLength(at)),
        };
        let start = at + n;
        if block_len == 0 {
            return Ok(index);
        }
        if block_len > (data.len() - start) as u64 {
            return Err(TileError::BlockTooLong(start));
        }
        let end = start + block_len as usize;
        let block = vstd::slice::slice_subrange(data, start, end);
        let (text, c) = match read_cid(block) {
            Some(p) => p,
            None => return Err(TileError::BadCid(start)),
        };
        index.insert(text, ((start + c) as u64, block_len - c as u64));
        at = end;
    }
    Ok(index)
}

/// Reads a container from the bytes of its file; `path` is kept so that
/// blocks can be read from the file later.
pub fn parse_tile(path: String, data: &[u8]) -> (r: Result<TileContent, TileError>)
    ensures
        match r {
            Ok(t) => t.wf() && t.path == path && parse_tile_spec(data@) == Ok::<
                (MaslView, Map<Seq<char>, (u64, u64)>),
                TileError,
            >((t.masl@, t.index@)),
            Err(x) => parse_tile_spec(data@) == Err::<
                (MaslView, Map<Seq<char>, (u64, u64)>),
                TileError,
            >(x),
        },
{
    let (header_len, n) = match read_uvarint(data) {
        Some(p) => p,
        None => return Err(TileError::HeaderLength),
    };
    if header_len > (data.len() - n) as u64 {
        return Err(TileError::HeaderTooLong);
    }
    let header_end = n + header_len as usize;
    let header = vstd::slice::slice_subrange(data, n, header_end);
    let masl = match parse_masl(header) {
        Ok(m) => m,
        Err(x) => return Err(x),
    };
    let index = match index_blocks(data, header_end) {
        Ok(i) => i,
        Err(x) => return Err(x),
    };
    Ok(TileContent { path, masl, index })
}

} // verus!
