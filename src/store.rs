//! The open containers, each under its authority. A container opened under
//! an authority already in use replaces the one there.
use vstd::prelude::*;
use crate::authority::{authority_from_path, authority_spec};
use crate::container::{TileContent, TileView, parse_tile, parse_tile_spec};
use crate::error::TileError;
use crate::manifest::{MaslView, Resource};
use crate::resolve::{candidates, first_key};
use crate::strmap::StrMap;

verus! {

pub struct TileStore {
    tiles: StrMap<TileContent>,
}

impl View for TileStore {
    type V = Map<Seq<char>, TileView>;

    closed spec fn view(&self) -> Map<Seq<char>, TileView> {
        self.tiles@
    }
}

impl TileStore {
    #[verifier::type_invariant]
    spec fn inv(self) -> bool {
        &&& self.tiles.wf()
        &&& forall|i: int|
            0 <= i < self.tiles.entries@.len() ==> (#[trigger] self.tiles.entries@[i]).1.wf()
    }

    pub fn new() -> (r: TileStore)
        ensures
            r@ == Map::<Seq<char>, TileView>::empty(),
    {
        TileStore { tiles: StrMap::new() }
    }

    /// Puts `tile` under `authority`, replacing what was there.
    pub fn insert(&mut self, authority: String, tile: TileContent)
        requires
            tile.wf(),
        ensures
            final(self)@ == old(self)@.insert(authority@, tile@),
    {
        proof {
            use_type_invariant(&*self);
        }
        let mut tiles: StrMap<TileContent> = StrMap::new();
        assert(tiles@ =~= Map::<Seq<char>, TileView>::empty());
        core::mem::swap(&mut self.tiles, &mut tiles);
        let ghost prev = tiles;
        let ghost t = tile;
        tiles.insert(authority, tile);
        assert forall|i: int|
            0 <= i < tiles.entries@.len() implies (#[trigger] tiles.entries@[i]).1.wf() by {
            if tiles.entries@[i].1 != t {
                let k = choose|k: int|
                    0 <= k < prev.entries@.len() && tiles.entries@[i].1 == prev.entries@[k].1;
                assert(prev.entries@[k].1.wf());
            }
        }
        core::mem::swap(&mut self.tiles, &mut tiles);
    }

    /// The container under `authority`.
    pub fn get(&self, authority: &String) -> (r: Option<&TileContent>)
        ensures
            match r {
                Some(t) => self@.contains_key(authority@) && self@[authority@] == t@ && t.wf(),
                None => !self@.contains_key(authority@),
            },
    {
        proof {
            use_type_invariant(self);
        }
        let r = self.tiles.get(authority);
        proof {
            if let Some(t) = r {
                let i = choose|i: int| 0 <= i < self.tiles.entries@.len() && self.tiles.entries@[i].1 == *t;
                assert(self.tiles.entries@[i].1.wf());
            }
        }
        r
    }

    /// Reads the container in `data`, the bytes of the file at `path`, and
    /// puts it under the authority of `path`, which is returned. Where the
    /// bytes do not parse, the store is left as it was.
    pub fn load(&mut self, path: String, data: &[u8]) -> (r: Result<String, TileError>)
        ensures
            match r {
                Ok(a) => {
                    &&& a@ == authority_spec(path@)
                    &&& final(self)@ == old(self)@.insert(a@, final(self)@[a@])
                    &&& final(self)@[a@].path == path@
                    &&& parse_tile_spec(data@) == Ok::<(MaslView, Map<Seq<char>, (u64, u64)>), TileError>(
                        (final(self)@[a@].masl, final(self)@[a@].index),
                    )
                },
                Err(x) => final(self)@ == old(self)@ && parse_tile_spec(data@) == Err::<
                    (MaslView, Map<Seq<char>, (u64, u64)>),
                    TileError,
                >(x),
            },
    {
        let authority = authority_from_path(path.as_str());
        let tile = match parse_tile(path, data) {
            Ok(t) => t,
            Err(x) => return Err(x),
        };
        let key = authority.clone();
        self.insert(key, tile);
        Ok(authority)
    }

    /// Answers a request for `path` under `authority`: the resource found
    /// through the fallback keys and where its block's payload lies.
    pub fn resolve(&self, authority: &String, path: &String) -> (r: Result<
        (&Resource, u64, u64),
        TileError,
    >)
        ensures
            !self@.contains_key(authority@) ==> (r matches Err(x) && x == TileError::NotLoaded),
            self@.contains_key(authority@) ==> match first_key(
                self@[authority@].masl.resources,
                candidates(path@),
            ) {
                None => r matches Err(x) && x == TileError::NoResource,
                Some(k) => {
                    let tile = self@[authority@];
                    let res = tile.masl.resources[k];
                    if tile.index.contains_key(res.src) {
                        r matches Ok(t) && t.0@ == res && (t.1, t.2) == tile.index[res.src]
                    } else {
                        r matches Err(x) && x == TileError::BlockNotFound
                    }
                },
            },
    {
        match self.get(authority) {
            Some(tile) => tile.resolve(path),
            None => Err(TileError::NotLoaded),
        }
    }
}

} // verus!
