use vstd::prelude::*;
use vstd::set_lib::*;

verus! {

/// A position on the grid: `x` is the column, `y` the row.
#[derive(Debug, Default, Clone, Copy, PartialEq, Eq, Hash, PartialOrd, Ord, Structural)]
pub struct Coordinates {
    pub x: u16,
    pub y: u16,
}

/// Number of relative positions around a cell.
pub const NEIGHBOR_COUNT: usize = 8;

/// The relative position of the `i`-th neighbour, in a fixed order: bottom left,
/// bottom, bottom right, left, right, top left, top, top right.
pub open spec fn neighbor_delta(i: int) -> (int, int) {
    if i == 0 {
        (-1, -1)
    } else if i == 1 {
        (0, -1)
    } else if i == 2 {
        (1, -1)
    } else if i == 3 {
        (-1, 0)
    } else if i == 4 {
        (1, 0)
    } else if i == 5 {
        (-1, 1)
    } else if i == 6 {
        (0, 1)
    } else {
        (1, 1)
    }
}

/// `v` moved by `d`, when the result stays within the range of `u16`.
pub open spec fn shifted(v: u16, d: int) -> Option<u16> {
    if 0 <= v + d <= u16::MAX {
        Some((v + d) as u16)
    } else {
        None
    }
}

impl Coordinates {
    /// The coordinate moved by `(dx, dy)`, or `None` when that leaves the range of `u16`.
    pub open spec fn offset_spec(self, dx: int, dy: int) -> Option<Coordinates> {
        match (shifted(self.x, dx), shifted(self.y, dy)) {
            (Some(x), Some(y)) => Some(Coordinates { x, y }),
            _ => None,
        }
    }

    /// The `i`-th neighbour of `self`, if it exists.
    pub open spec fn neighbor(self, i: int) -> Option<Coordinates> {
        self.offset_spec(neighbor_delta(i).0, neighbor_delta(i).1)
    }

    /// The neighbours among the first `n` relative positions, in order, skipping
    /// those that leave the range of `u16`.
    pub open spec fn neighbors_upto(self, n: int) -> Seq<Coordinates>
        decreases n,
    {
        if n <= 0 {
            Seq::empty()
        } else {
            let prev = self.neighbors_upto(n - 1);
            match self.neighbor(n - 1) {
                Some(c) => prev.push(c),
                None => prev,
            }
        }
    }

    /// All neighbours of `self`, in the fixed order.
    pub open spec fn neighbors(self) -> Seq<Coordinates> {
        self.neighbors_upto(NEIGHBOR_COUNT as int)
    }

    /// `other` is one of the up to eight cells around `self`.
    pub open spec fn is_adjacent(self, other: Coordinates) -> bool {
        self.neighbors().contains(other)
    }

    /// A number that identifies the coordinate, used as a key in hash sets.
    pub open spec fn key_spec(self) -> u32 {
        (self.y as int * 65536 + self.x as int) as u32
    }

    /// The coordinate moved by `(dx, dy)`; `None` where a component would fall below
    /// zero or above `u16::MAX`, rather than wrapping around.
    pub fn offset(&self, dx: i8, dy: i8) -> (r: Option<Coordinates>)
        ensures
            r == self.offset_spec(dx as int, dy as int),
    {
        let x: i32 = self.x as i32 + dx as i32;
        let y: i32 = self.y as i32 + dy as i32;
        if 0 <= x && x <= u16::MAX as i32 && 0 <= y && y <= u16::MAX as i32 {
            Some(Coordinates { x: x as u16, y: y as u16 })
        } else {
            None
        }
    }

    /// The key of the coordinate in the hash sets of a board.
    pub fn key(&self) -> (r: u32)
        ensures
            r == self.key_spec(),
    {
        self.y as u32 * 65536 + self.x as u32
    }
}

/// The relative position of the `i`-th neighbour.
pub fn neighbor_offset(i: usize) -> (r: (i8, i8))
    requires
        i < NEIGHBOR_COUNT,
    ensures
        r.0 as int == neighbor_delta(i as int).0,
        r.1 as int == neighbor_delta(i as int).1,
{
    match i {
        0 => (-1, -1),
        1 => (0, -1),
        2 => (1, -1),
        3 => (-1, 0),
        4 => (1, 0),
        5 => (-1, 1),
        6 => (0, 1),
        _ => (1, 1),
    }
}

/// The coordinate that a key stands for.
pub open spec fn from_key(k: u32) -> Coordinates {
    Coordinates { x: (k % 65536) as u16, y: (k / 65536) as u16 }
}

/// Keys and coordinates are in one-to-one correspondence.
pub proof fn lemma_key_bijective(c: Coordinates, k: u32)
    ensures
        from_key(c.key_spec()) == c,
        c.key_spec() == k <==> from_key(k) == c,
{
}

/// A set of keys and the set of coordinates they stand for have the same size.
pub proof fn lemma_key_set_len(keys: Set<u32>)
    ensures
        keys.finite(),
        Set::new(|c: Coordinates| keys.contains(c.key_spec())).len() == keys.len(),
{
    broadcast use full_set_properties;

    let f = |k: u32| from_key(k);
    let coords = Set::new(|c: Coordinates| keys.contains(c.key_spec()));
    assert(Set::<u32>::full().finite());
    lemma_set_subset_finite(Set::<u32>::full(), keys);
    assert forall|c: Coordinates| #[trigger] coords.contains(c) <==> keys.map(f).contains(c) by {
        lemma_key_bijective(c, c.key_spec());
        if keys.map(f).contains(c) {
            let k = choose|k: u32| keys.contains(k) && f(k) == c;
            lemma_key_bijective(c, k);
        }
    }
    assert(coords =~= keys.map(f));
    assert forall|a: u32, b: u32| keys.contains(a) && keys.contains(b) && #[trigger] f(a) == #[trigger] f(b) implies a == b by {
        lemma_key_bijective(f(a), a);
        lemma_key_bijective(f(a), b);
    }
    lemma_map_size(keys, coords, f);
}

/// Every set of coordinates is finite.
pub proof fn lemma_coordinates_finite(s: Set<Coordinates>)
    ensures
        s.finite(),
{
    let all = Set::<u32>::full();
    let f = |k: u32| from_key(k);
    broadcast use full_set_properties;
    assert(all.finite());
    all.lemma_map_finite(f);
    assert forall|c: Coordinates| s.contains(c) implies all.map(f).contains(c) by {
        lemma_key_bijective(c, c.key_spec());
        assert(all.contains(c.key_spec()));
    }
    lemma_set_subset_finite(all.map(f), s);
}

/// The neighbours of a coordinate are at most eight, pairwise distinct, and each
/// differs from it by at most one in each component.
pub proof fn lemma_neighbors(c: Coordinates)
    ensures
        c.neighbors().len() <= NEIGHBOR_COUNT,
        c.neighbors().no_duplicates(),
        !c.neighbors().contains(c),
        forall|n: Coordinates| #[trigger] c.neighbors().contains(n) <==> (
            n != c && -1 <= n.x - c.x <= 1 && -1 <= n.y - c.y <= 1),
{
    reveal_with_fuel(Coordinates::neighbors_upto, 9);
    lemma_neighbors_upto_contains(c, NEIGHBOR_COUNT as int);
    assert forall|n: Coordinates|
        n != c && -1 <= n.x - c.x <= 1 && -1 <= n.y - c.y <= 1 implies #[trigger] c.neighbors().contains(n)
    by {
        let dx = n.x - c.x;
        let dy = n.y - c.y;
        let i: int = if dy == -1 {
            dx + 1
        } else if dy == 0 {
            if dx == -1 { 3 } else { 4 }
        } else {
            dx + 6
        };
        assert(c.neighbor(i) == Some(n));
    }
}

proof fn lemma_neighbors_upto_contains(c: Coordinates, k: int)
    requires
        0 <= k,
    ensures
        forall|n: Coordinates| #[trigger] c.neighbors_upto(k).contains(n) <==> exists|i: int|
            0 <= i < k && c.neighbor(i) == Some(n),
    decreases k,
{
    if k > 0 {
        lemma_neighbors_upto_contains(c, k - 1);
        let prev = c.neighbors_upto(k - 1);
        match c.neighbor(k - 1) {
            Some(m) => {
                assert(c.neighbors_upto(k) == prev.push(m));
                assert forall|n: Coordinates| #[trigger] c.neighbors_upto(k).contains(n) <==> exists|i: int|
                    0 <= i < k && c.neighbor(i) == Some(n)
                by {
                    if prev.push(m).contains(n) {
                        if n == m {
                            assert(c.neighbor(k - 1) == Some(n));
                        } else {
                            let j = choose|j: int| 0 <= j < prev.push(m).len() && #[trigger] prev.push(m)[j] == n;
                            assert(prev[j] == n);
                            assert(prev.contains(n));
                            let i = choose|i: int| 0 <= i < k - 1 && c.neighbor(i) == Some(n);
                            assert(0 <= i < k && c.neighbor(i) == Some(n));
                        }
                    }
                    if exists|i: int| 0 <= i < k && c.neighbor(i) == Some(n) {
                        let i = choose|i: int| 0 <= i < k && c.neighbor(i) == Some(n);
                        if i == k - 1 {
                            assert(prev.push(m)[prev.len() as int] == n);
                        } else {
                            assert(exists|i2: int| 0 <= i2 < k - 1 && c.neighbor(i2) == Some(n));
                            assert(prev.contains(n));
                            let j = choose|j: int| 0 <= j < prev.len() && #[trigger] prev[j] == n;
                            assert(prev.push(m)[j] == n);
                        }
                    }
                }
            },
            None => {
                assert(c.neighbors_upto(k) == prev);
            },
        }
    }
}

} // verus!
