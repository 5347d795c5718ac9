use vstd::prelude::*;
use rand::Rng;
use crate::constants::TILE_TYPES;
use crate::grid::is_ordinary;

verus! {

/// Calls `Rng::gen_range` of `rand` on the thread-local generator
/// (`rand::thread_rng`) with the inclusive range `low..=high`.
///
/// `gen_range` panics on an empty range, which `requires` leaves out. What
/// it returns lies in the range, and nothing more is claimed of it: two
/// calls with the same range may differ. Inside, `gen_range` draws words
/// until one falls into the zone that it accepts, which happens with
/// probability one, and `thread_rng` panics where the operating system
/// cannot seed it; no argument avoids either.
#[verifier::external_body]
fn random_in_range(low: usize, high: usize) -> (n: usize)
    requires
        low <= high,
    ensures
        low <= n <= high,
{
    rand::thread_rng().gen_range(low..=high)
}

/// Where the engine gets new tiles from.
///
/// A source hands out the tiles of its script, in order, and random tiles
/// once the script is used up. An entry of the script that is no ordinary
/// tile code is used up like the others, and a random tile is handed out in
/// its place.
pub struct TileSource {
    script: Vec<u8>,
    cursor: usize,
    drawn: Ghost<Seq<u8>>,
}

/// Every member of `d` is the code of an ordinary tile.
pub open spec fn all_ordinary(d: Seq<u8>) -> bool {
    forall|i: int| 0 <= i < d.len() ==> is_ordinary(#[trigger] d[i])
}

/// The tiles `d`, in this order, may be what a source hands out whose script
/// still holds `pending`: each is ordinary, and each that has an ordinary
/// counterpart in the script equals it.
pub open spec fn follows_script(pending: Seq<u8>, d: Seq<u8>) -> bool {
    &&& all_ordinary(d)
    &&& forall|i: int|
        0 <= i < d.len() && i < pending.len() && is_ordinary(#[trigger] pending[i]) ==> d[i]
            == pending[i]
}

/// What is left of a script once `n` tiles have been drawn.
pub open spec fn script_after(pending: Seq<u8>, n: nat) -> Seq<u8> {
    if n <= pending.len() {
        pending.skip(n as int)
    } else {
        Seq::empty()
    }
}

impl TileSource {
    /// All tiles that the source has handed out, oldest first.
    pub closed spec fn history(&self) -> Seq<u8> {
        self.drawn@
    }

    /// The part of the script that has not been used yet.
    pub closed spec fn pending(&self) -> Seq<u8> {
        if self.cursor <= self.script.len() {
            self.script@.skip(self.cursor as int)
        } else {
            Seq::empty()
        }
    }

    /// The tiles handed out since the source was in the state `earlier`.
    pub open spec fn drawn_since(&self, earlier: TileSource) -> Seq<u8> {
        self.history().skip(earlier.history().len() as int)
    }

    /// The source went from the state `self` to the state `later` by handing
    /// out exactly the tiles `d`.
    pub open spec fn leads_to(&self, later: TileSource, d: Seq<u8>) -> bool {
        &&& later.history() == self.history() + d
        &&& later.pending() == script_after(self.pending(), d.len())
        &&& follows_script(self.pending(), d)
    }

    /// A source of random tiles.
    pub fn random() -> (s: TileSource)
        ensures
            s.history() == Seq::<u8>::empty(),
            s.pending() == Seq::<u8>::empty(),
    {
        TileSource { script: Vec::new(), cursor: 0, drawn: Ghost(Seq::empty()) }
    }

    /// A source that hands out `script` first and random tiles after it.
    pub fn scripted(script: Vec<u8>) -> (s: TileSource)
        ensures
            s.history() == Seq::<u8>::empty(),
            s.pending() == script@,
    {
        TileSource { script, cursor: 0, drawn: Ghost(Seq::empty()) }
    }

    /// How many entries of the script have not been used yet.
    pub fn remaining(&self) -> (n: usize)
        ensures
            n == self.pending().len(),
    {
        if self.cursor <= self.script.len() {
            self.script.len() - self.cursor
        } else {
            0
        }
    }

    /// Hands out the next tile: the next entry of the script where that is
    /// an ordinary tile, a random ordinary tile otherwise.
    pub fn draw(&mut self) -> (t: u8)
        ensures
            is_ordinary(t),
            old(self).pending().len() > 0 && is_ordinary(old(self).pending()[0]) ==> t
                == old(self).pending()[0],
            final(self).pending() == script_after(old(self).pending(), 1),
            final(self).history() == old(self).history().push(t),
            old(self).leads_to(*final(self), seq![t]),
    {
        let mut tile: u8 = 0;
        if self.cursor < self.script.len() {
            tile = self.script[self.cursor];
            self.cursor = self.cursor + 1;
        }
        if tile < 1 || tile as usize > TILE_TYPES {
            tile = random_in_range(1, TILE_TYPES) as u8;
        }
        self.drawn = Ghost(self.drawn@.push(tile));
        proof {
            assert(final(self).history() == old(self).history() + seq![tile]);
            assert(final(self).pending() == script_after(old(self).pending(), 1));
        }
        tile
    }
}

/// A source that has handed out nothing has not moved.
pub proof fn lemma_leads_nowhere(s: TileSource)
    ensures
        s.leads_to(s, Seq::empty()),
        s.drawn_since(s) == Seq::<u8>::empty(),
{
    assert(s.history() + Seq::<u8>::empty() == s.history());
    assert(script_after(s.pending(), 0) == s.pending());
}

/// Drawing `d1` and then `d2` is drawing `d1 + d2`.
pub proof fn lemma_leads_on(a: TileSource, b: TileSource, c: TileSource, d1: Seq<u8>, d2: Seq<u8>)
    requires
        a.leads_to(b, d1),
        b.leads_to(c, d2),
    ensures
        a.leads_to(c, d1 + d2),
{
    let d = d1 + d2;
    assert(c.history() == a.history() + d);
    assert(c.pending() == script_after(a.pending(), d.len()));
    assert forall|i: int|
        0 <= i < d.len() && i < a.pending().len() && is_ordinary(
            #[trigger] a.pending()[i],
        ) implies d[i] == a.pending()[i] by {
        if i >= d1.len() {
            let j = i - d1.len();
            assert(b.pending()[j] == a.pending()[i]);
            assert(d2[j] == b.pending()[j]);
        }
    }
    assert forall|i: int| 0 <= i < d.len() implies is_ordinary(#[trigger] d[i]) by {
        if i >= d1.len() {
            assert(is_ordinary(d2[i - d1.len()]));
        } else {
            assert(is_ordinary(d1[i]));
        }
    }
}

/// The tiles that took a source from one state to a later one are those it
/// has handed out since.
pub proof fn lemma_drawn_since(a: TileSource, b: TileSource, d: Seq<u8>)
    requires
        a.leads_to(b, d),
    ensures
        b.drawn_since(a) == d,
{
    assert(b.history().skip(a.history().len() as int) =~= d);
}

} // verus!
