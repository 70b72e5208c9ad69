//! The closed set of terrain kinds and the rule of which kinds may sit side by side.
use vstd::prelude::*;

verus! {

/// A terrain kind.
#[derive(Clone, Copy, PartialEq, Eq, Structural, Debug)]
pub enum Tile {
    River,
    Wasteland,
    Farmland,
}

/// The kinds that may stand next to a cell of kind `k`, in table order.
pub open spec fn neighbour_table(k: Tile) -> Seq<Tile> {
    match k {
        Tile::River => seq![Tile::River, Tile::Wasteland],
        Tile::Wasteland => seq![Tile::River, Tile::Wasteland, Tile::Farmland],
        Tile::Farmland => seq![Tile::Farmland, Tile::Wasteland],
    }
}

/// Whether a cell of kind `b` may stand next to a cell of kind `a`:
/// every pair but River beside Farmland.
pub open spec fn compatible(a: Tile, b: Tile) -> bool {
    !((a == Tile::River && b == Tile::Farmland) || (a == Tile::Farmland && b == Tile::River))
}

/// The two-character glyph that renders kind `k`.
pub open spec fn glyph(k: Tile) -> Seq<char> {
    match k {
        Tile::River => "░░"@,
        Tile::Wasteland => "▓▓"@,
        Tile::Farmland => "██"@,
    }
}

impl Tile {
    /// The glyph that renders this kind.
    pub fn as_str(&self) -> (r: &'static str)
        ensures
            r@ == glyph(*self),
    {
        match self {
            Tile::River => "░░",
            Tile::Wasteland => "▓▓",
            Tile::Farmland => "██",
        }
    }

    /// The kinds that may stand next to this one.
    pub fn valid_neighbours(&self) -> (r: Vec<Tile>)
        ensures
            r@ == neighbour_table(*self),
    {
        match self {
            Tile::River => vec![Tile::River, Tile::Wasteland],
            Tile::Wasteland => vec![Tile::River, Tile::Wasteland, Tile::Farmland],
            Tile::Farmland => vec![Tile::Farmland, Tile::Wasteland],
        }
    }
}

impl Default for Tile {
    fn default() -> (r: Tile)
        ensures
            r == Tile::Wasteland,
    {
        Tile::Wasteland
    }
}

/// The neighbour table of every kind is non-empty, holds the kind itself,
/// holds exactly the kinds compatible with it, and the relation is symmetric.
pub proof fn lemma_neighbour_table(k: Tile)
    ensures
        neighbour_table(k).len() > 0,
        neighbour_table(k).contains(k),
        neighbour_table(k).no_duplicates(),
        forall|t: Tile| #[trigger] neighbour_table(k).contains(t) <==> compatible(k, t),
        forall|t: Tile| compatible(k, t) <==> #[trigger] compatible(t, k),
{
    let s = neighbour_table(k);
    assert forall|t: Tile| #[trigger] s.contains(t) <==> compatible(k, t) by {
        if compatible(k, t) {
            if s[0] == t {
            } else if s[1] == t {
            } else {
                assert(s[2] == t);
            }
        }
    }
    assert(s.contains(k)) by {
        if s[0] != k {
            assert(s[1] == k);
        }
    }
}

} // verus!
