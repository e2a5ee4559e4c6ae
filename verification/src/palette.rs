//! The palette: an ordered sequence of (tile identifier, representative
//! color) pairs. It answers nearest-match queries under the weighted distance
//! metric; on ties the entry listed first wins.

use vstd::prelude::*;
use crate::color::{Color, Color8, spec_color_of_byte, spec_byte_of_color, color_of_byte, byte_of_color};
use crate::distance::{spec_distance, color_distance, lemma_distance_range, MAX_QFACTOR};

verus! {

/// The fixed quantization factor of plain nearest-match lookups.
pub const QFACTOR: u64 = 64;

/// One palette entry: an opaque tile identifier (any byte string, say a
/// file path) and the tile's representative color. The palette never
/// interprets the identifier.
#[derive(Clone, Debug)]
pub struct Entry {
    pub tile: Vec<u8>,
    pub color: Color,
}

/// An ordered, non-empty sequence of palette entries; order carries no
/// meaning beyond stable indexing and tie-breaking.
#[derive(Clone, Debug)]
pub struct Palette {
    pub items: Vec<Entry>,
}

/// Distance of a query color `c` to the entry at `i`.
pub open spec fn entry_dist(s: Seq<Entry>, i: int, c: Color) -> int {
    spec_distance(s[i].color, c, 0, QFACTOR)
}

/// Index of the entry nearest to `c`: the first index whose distance is
/// minimal over the whole sequence.
pub open spec fn nearest_idx(s: Seq<Entry>, c: Color) -> int
    decreases s.len(),
{
    if s.len() <= 1 {
        0
    } else {
        let r = nearest_idx(s.drop_last(), c);
        if entry_dist(s, s.len() - 1, c) < entry_dist(s, r, c) {
            s.len() - 1
        } else {
            r
        }
    }
}

/// The nearest index is in range, its distance is minimal, and every earlier
/// entry is strictly farther: the first minimal entry wins ties.
pub proof fn lemma_nearest_idx_minimal(s: Seq<Entry>, c: Color)
    requires
        s.len() > 0,
    ensures
        0 <= nearest_idx(s, c) < s.len(),
        forall|j: int|
            0 <= j < s.len() ==> entry_dist(s, nearest_idx(s, c), c) <= #[trigger] entry_dist(s, j, c),
        forall|j: int|
            0 <= j < nearest_idx(s, c) ==> #[trigger] entry_dist(s, j, c) > entry_dist(s, nearest_idx(s, c), c),
    decreases s.len(),
{
    if s.len() > 1 {
        lemma_nearest_idx_minimal(s.drop_last(), c);
        let r = nearest_idx(s.drop_last(), c);
        let k = nearest_idx(s, c);
        assert forall|j: int| 0 <= j < s.len() - 1 implies #[trigger] entry_dist(s, j, c)
            == entry_dist(s.drop_last(), j, c) by {
            assert(s.drop_last()[j] == s[j]);
        }
        assert forall|j: int| 0 <= j < s.len() implies entry_dist(s, k, c) <= #[trigger] entry_dist(
            s,
            j,
            c,
        ) by {
            if j < s.len() - 1 {
                assert(entry_dist(s.drop_last(), r, c) <= entry_dist(s.drop_last(), j, c));
            }
        }
        assert forall|j: int| 0 <= j < k implies #[trigger] entry_dist(s, j, c) > entry_dist(
            s,
            k,
            c,
        ) by {
            if k == s.len() - 1 {
                assert(entry_dist(s.drop_last(), r, c) <= entry_dist(s.drop_last(), j, c));
            } else {
                assert(entry_dist(s.drop_last(), j, c) > entry_dist(s.drop_last(), r, c));
            }
        }
    }
}

impl Palette {
    /// Entries are present and every representative color is well formed.
    pub open spec fn wf(&self) -> bool {
        self.items@.len() > 0 && forall|i: int| 0 <= i < self.items@.len() ==> self.items@[i].color.wf()
    }

    /// Builds a palette from caller-ordered entries: no deduplication, no
    /// sorting. An empty sequence of entries is a precondition violation.
    pub fn from(items: Vec<Entry>) -> (p: Palette)
        requires
            items@.len() > 0,
            forall|i: int| 0 <= i < items@.len() ==> items@[i].color.wf(),
        ensures
            p.items@ == items@,
            p.wf(),
    {
        Palette { items }
    }

    /// Index of the entry whose color is nearest to `color`; the first entry
    /// in palette order wins ties.
    pub fn nearest_index(&self, color: &Color) -> (i: usize)
        requires
            self.wf(),
            color.wf(),
        ensures
            i == nearest_idx(self.items@, *color),
    {
        let s = Ghost(self.items@);
        let mut best: usize = 0;
        let mut best_d: u64 = color_distance(&self.items[0].color, color, 0, QFACTOR);
        proof {
            assert(s@.take(1).drop_last() =~= s@.take(0));
            assert(entry_dist(s@.take(1), 0, *color) == entry_dist(s@, 0, *color));
        }
        let n = self.items.len();
        for i in 1..n
            invariant
                n == s@.len(),
                s@ == self.items@,
                self.wf(),
                color.wf(),
                0 <= best < i <= n,
                best == nearest_idx(s@.take(i as int), *color),
                best_d == entry_dist(s@, best as int, *color),
        {
            let d = color_distance(&self.items[i].color, color, 0, QFACTOR);
            proof {
                let pre = s@.take(i as int);
                let cur = s@.take(i + 1);
                assert(cur.drop_last() =~= pre);
                assert(cur.len() == i + 1);
                assert(forall|j: int| 0 <= j <= i ==> cur[j] == s@[j]);
                assert(entry_dist(cur, i as int, *color) == entry_dist(s@, i as int, *color));
                assert(entry_dist(cur, best as int, *color) == entry_dist(s@, best as int, *color));
            }
            if d < best_d {
                best = i;
                best_d = d;
            }
        }
        proof {
            assert(s@.take(n as int) =~= s@);
        }
        best
    }

    /// Returns the tile identifier and representative color of the entry
    /// nearest to `color`; the first entry in palette order wins ties.
    pub fn nearest_color(&self, color: &Color) -> (r: (Vec<u8>, Color))
        requires
            self.wf(),
            color.wf(),
        ensures
            r.0@ == self.items@[nearest_idx(self.items@, *color)].tile@,
            r.1 == self.items@[nearest_idx(self.items@, *color)].color,
    {
        proof {
            lemma_nearest_idx_minimal(self.items@, *color);
        }
        let i = self.nearest_index(color);
        (self.items[i].tile.clone(), self.items[i].color)
    }

    /// Nearest-match index for an 8-bit pixel: the pixel is converted to
    /// fixed point and matched like any other query color.
    pub fn index_of(&self, color: &Color8) -> (i: usize)
        requires
            self.wf(),
        ensures
            i == nearest_idx(self.items@, spec_color_of_byte(*color)),
    {
        let c = color_of_byte(*color);
        proof {
            lemma_nearest_idx_minimal(self.items@, c);
        }
        self.nearest_index(&c)
    }

    /// Replaces an 8-bit pixel, in place, with the 8-bit form of the
    /// representative color of its nearest entry.
    pub fn map_color(&self, color: &mut Color8)
        requires
            self.wf(),
        ensures
            *final(color) == spec_byte_of_color(
                self.items@[nearest_idx(self.items@, spec_color_of_byte(*old(color)))].color,
            ),
    {
        proof {
            lemma_nearest_idx_minimal(self.items@, spec_color_of_byte(*color));
        }
        let i = self.index_of(color);
        *color = byte_of_color(self.items[i].color);
    }
}

/// In a palette with a single entry every query color is matched to that
/// entry, whatever the query.
pub proof fn lemma_single_entry_nearest(s: Seq<Entry>, c: Color)
    requires
        s.len() == 1,
    ensures
        nearest_idx(s, c) == 0,
{
}

} // verus!
