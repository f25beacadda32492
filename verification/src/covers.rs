//! The covers that still lie on a board, kept in the engine's hash map.

use vstd::prelude::*;
use crate::components::Coordinates;

verus! {

/// The covered cells of a board, each with the handle by which the
/// presentation layer knows its cover.
///
/// The entries live in a `bevy::utils::HashMap`; nothing here is proved of
/// that map. Its behaviour is taken on trust, as the methods below state it.
#[verifier::external_body]
pub struct CoverMap {
    cells: bevy::utils::HashMap<(u16, u16), u64>,
}

/// What a cover map holds: the covered coordinates, each with its handle.
pub uninterp spec fn cover_entries(covers: CoverMap) -> Map<Coordinates, u64>;

impl CoverMap {
    /// `bevy::utils::HashMap::default`: a map without entries.
    #[verifier::external_body]
    pub(crate) fn new() -> (made: CoverMap)
        ensures
            cover_entries(made) == (Map::<Coordinates, u64>::empty()),
    {
        CoverMap { cells: bevy::utils::HashMap::default() }
    }

    /// `HashMap::insert`: afterwards the map holds `handle` under `at` and is
    /// otherwise unchanged; the handle that `at` had before is returned.
    #[verifier::external_body]
    pub(crate) fn insert(&mut self, at: Coordinates, handle: u64) -> (previous: Option<u64>)
        ensures
            cover_entries(*final(self)) == cover_entries(*old(self)).insert(at, handle),
            previous == (if cover_entries(*old(self)).contains_key(at) {
                Some(cover_entries(*old(self))[at])
            } else {
                None
            }),
    {
        self.cells.insert((at.x, at.y), handle)
    }

    /// `HashMap::remove`: afterwards the map has no entry under `at` and is
    /// otherwise unchanged; the handle that `at` had is returned.
    #[verifier::external_body]
    pub(crate) fn remove(&mut self, at: Coordinates) -> (removed: Option<u64>)
        ensures
            cover_entries(*final(self)) == cover_entries(*old(self)).remove(at),
            removed == (if cover_entries(*old(self)).contains_key(at) {
                Some(cover_entries(*old(self))[at])
            } else {
                None
            }),
    {
        self.cells.remove(&(at.x, at.y))
    }

    /// `HashMap::get`: the handle under `at`, if there is one.
    #[verifier::external_body]
    pub(crate) fn get(&self, at: Coordinates) -> (handle: Option<u64>)
        ensures
            handle == (if cover_entries(*self).contains_key(at) {
                Some(cover_entries(*self)[at])
            } else {
                None
            }),
    {
        self.cells.get(&(at.x, at.y)).copied()
    }

    /// `HashMap::contains_key`: whether there is an entry under `at`.
    #[verifier::external_body]
    pub(crate) fn contains_key(&self, at: Coordinates) -> (present: bool)
        ensures
            present == cover_entries(*self).contains_key(at),
    {
        self.cells.contains_key(&(at.x, at.y))
    }
}

} // verus!
