use vstd::prelude::*;

use std::collections::HashSet;

use crate::coordinates::{lemma_key_bijective, lemma_key_set_len, lemma_neighbors, from_key, Coordinates};
use crate::tile::Tile;
use crate::tile_map::lemma_no_bombs_all_empty;
use crate::queue::Queue;
use crate::tile_map::TileMap;

verus! {

broadcast use vstd::std_specs::hash::group_hash_axioms;

/// The state of a game: the map, the cells the player has discovered and the
/// cells they have flagged. Both sets of cells are kept as sets of keys (see
/// `Coordinates::key`).
pub struct Board {
    pub tile_map: TileMap,
    pub coordinates_discovered: HashSet<u32>,
    pub coordinates_marked: HashSet<u32>,
    /// Whether a discovered cell holds a mine.
    pub bomb_discovered: bool,
}

impl Board {
    /// The cells that have been discovered.
    pub open spec fn discovered(&self) -> Set<Coordinates> {
        Set::new(|c: Coordinates| self.coordinates_discovered@.contains(c.key_spec()))
    }

    /// The cells that carry a flag.
    pub open spec fn flagged(&self) -> Set<Coordinates> {
        Set::new(|c: Coordinates| self.coordinates_marked@.contains(c.key_spec()))
    }

    /// The map is well formed; both sets hold only cells of the grid and have no
    /// cell in common; `bomb_discovered` tells whether a mine has been discovered.
    pub open spec fn wf(&self) -> bool {
        &&& self.tile_map.wf()
        &&& forall|k: u32| #[trigger] self.coordinates_discovered@.contains(k) ==> self.tile_map.in_grid(from_key(k))
        &&& forall|k: u32| #[trigger] self.coordinates_marked@.contains(k) ==> self.tile_map.in_grid(from_key(k))
        &&& self.discovered().disjoint(self.flagged())
        &&& self.bomb_discovered == exists|c: Coordinates| #[trigger] self.discovered().contains(c) && self.tile_map.is_mine(c)
    }

    /// A cell of the grid without a flag: one that a reveal may discover.
    pub open spec fn is_open(&self, c: Coordinates) -> bool {
        self.tile_map.in_grid(c) && !self.flagged().contains(c)
    }

    /// An open cell with no mine around it: a reveal goes on from it to its
    /// neighbours.
    pub open spec fn expands(&self, c: Coordinates) -> bool {
        self.is_open(c) && self.tile_map.is_empty_cell(c)
    }

    /// The cells that a reveal of `origin` reaches in at most `n` steps from one
    /// cell to a neighbour.
    pub open spec fn reached_within(&self, origin: Coordinates, n: nat) -> Set<Coordinates>
        decreases n,
    {
        if n == 0 {
            Set::new(|c: Coordinates| c == origin && self.is_open(c))
        } else {
            let prev = self.reached_within(origin, (n - 1) as nat);
            Set::new(
                |c: Coordinates|
                    prev.contains(c) || (self.is_open(c) && exists|u: Coordinates|
                        #[trigger] prev.contains(u) && self.expands(u) && u.is_adjacent(c)),
            )
        }
    }

    /// The cells that a reveal of `origin` discovers: `origin` itself if it is
    /// open, and every open cell next to a discovered cell with no mine around it.
    pub open spec fn flood(&self, origin: Coordinates) -> Set<Coordinates> {
        Set::new(|c: Coordinates| exists|n: nat| #[trigger] self.reached_within(origin, n).contains(c))
    }

    /// A new game on `tile_map`: nothing discovered, nothing flagged.
    pub fn new(tile_map: TileMap) -> (r: Board)
        requires
            tile_map.wf(),
        ensures
            r.wf(),
            r.tile_map == tile_map,
            r.discovered() == Set::<Coordinates>::empty(),
            r.flagged() == Set::<Coordinates>::empty(),
    {
        let r = Board {
            tile_map,
            coordinates_discovered: HashSet::new(),
            coordinates_marked: HashSet::new(),
            bomb_discovered: false,
        };
        proof {
            assert(r.discovered() =~= Set::<Coordinates>::empty());
            assert(r.flagged() =~= Set::<Coordinates>::empty());
        }
        r
    }

    pub fn is_flag_at(&self, coordinates: &Coordinates) -> (r: bool)
        ensures
            r == self.flagged().contains(*coordinates),
    {
        self.coordinates_marked.contains(&coordinates.key())
    }

    pub fn is_discovered_at(&self, coordinates: &Coordinates) -> (r: bool)
        ensures
            r == self.discovered().contains(*coordinates),
    {
        self.coordinates_discovered.contains(&coordinates.key())
    }

    /// Puts a flag on a covered cell of the grid that has none, and returns `true`;
    /// otherwise removes the flag, if there is one, and returns `false`. A
    /// discovered cell, or one outside the grid, never gets a flag.
    pub fn try_toggle_mark(&mut self, coordinates: Coordinates) -> (r: bool)
        requires
            old(self).wf(),
        ensures
            final(self).wf(),
            r == (old(self).tile_map.in_grid(coordinates) && !old(self).flagged().contains(coordinates)
                && !old(self).discovered().contains(coordinates)),
            final(self).flagged() == if r {
                old(self).flagged().insert(coordinates)
            } else {
                old(self).flagged().remove(coordinates)
            },
            old(self).discovered().contains(coordinates) ==> !r && final(self).flagged() == old(self).flagged(),
            final(self).discovered() == old(self).discovered(),
            final(self).tile_map == old(self).tile_map,
            final(self).bomb_discovered == old(self).bomb_discovered,
    {
        let key = coordinates.key();
        let in_grid = coordinates.x < self.tile_map.width && coordinates.y < self.tile_map.height;
        let ghost before = *self;
        let r = if !in_grid || self.coordinates_marked.contains(&key) || self.coordinates_discovered.contains(&key) {
            self.coordinates_marked.remove(&key);
            false
        } else {
            self.coordinates_marked.insert(key);
            true
        };
        proof {
            assert forall|c: Coordinates| c.key_spec() == key <==> c == coordinates by {
                lemma_key_bijective(c, key);
                lemma_key_bijective(coordinates, key);
            }
            if r {
                assert(self.flagged() =~= before.flagged().insert(coordinates));
            } else {
                assert(self.flagged() =~= before.flagged().remove(coordinates));
                if before.discovered().contains(coordinates) {
                    assert(!before.flagged().contains(coordinates));
                    assert(self.flagged() =~= before.flagged());
                }
            }
            assert(self.discovered() =~= before.discovered());
            assert forall|k: u32| #[trigger] self.coordinates_marked@.contains(k) implies self.tile_map.in_grid(from_key(k)) by {
                if k == key {
                    lemma_key_bijective(coordinates, k);
                }
            }
        }
        r
    }

    /// Whether the game is won: no mine has been discovered, and the discovered
    /// cells are as many as the cells without a mine.
    pub fn is_completed(&self) -> (r: bool)
        requires
            self.wf(),
        ensures
            r == (!self.bomb_discovered && self.discovered().len() + self.tile_map.bomb_count
                == self.tile_map.width * self.tile_map.height),
    {
        if self.bomb_discovered {
            return false;
        }
        proof {
            let (w, h) = (self.tile_map.width, self.tile_map.height);
            assert(w * h <= u16::MAX * u16::MAX) by (nonlinear_arith)
                requires
                    w <= u16::MAX,
                    h <= u16::MAX,
            ;
        }
        let cells: u64 = self.tile_map.width as u64 * self.tile_map.height as u64;
        let bombs: u64 = self.tile_map.bomb_count as u64;
        proof {
            lemma_key_set_len(self.coordinates_discovered@);
        }
        if bombs > cells {
            return false;
        }
        self.coordinates_discovered.len() as u64 == cells - bombs
    }

    /// Reveals a cell. A flagged cell, or one outside the grid, is left as it is
    /// and nothing is returned. Otherwise the cell is discovered, even if it holds
    /// a mine; from a cell with no mine around it, the discovery spreads in
    /// breadth-first order to every neighbour that carries no flag, and on from
    /// those that have no mine around them either. Returns each cell discovered
    /// by this call once, already discovered ones included.
    pub fn flood_discovery(&mut self, coordinates: Coordinates) -> (r: Vec<Coordinates>)
        requires
            old(self).wf(),
        ensures
            final(self).wf(),
            r@.no_duplicates(),
            r@.to_set() == old(self).flood(coordinates),
            !old(self).is_open(coordinates) ==> r@.len() == 0,
            old(self).is_open(coordinates) && !old(self).tile_map.is_empty_cell(coordinates) ==> r@ == seq![coordinates],
            final(self).discovered() == old(self).discovered().union(r@.to_set()),
            old(self).discovered().subset_of(final(self).discovered()),
            final(self).flagged() == old(self).flagged(),
            final(self).tile_map == old(self).tile_map,
    {
        let ghost start = *self;
        let mut result: Vec<Coordinates> = Vec::new();
        if coordinates.x >= self.tile_map.width || coordinates.y >= self.tile_map.height {
            proof {
                start.lemma_flood_closed_origin(coordinates);
            }
            return result;
        }
        let mut queue: Queue<Coordinates> = Queue::new();
        let mut visited: HashSet<u32> = HashSet::new();
        queue.enqueue(coordinates);
        visited.insert(coordinates.key());
        proof {
            assert forall|k: u32| #[trigger] visited@.contains(k) implies k < u32::MAX by {
                lemma_key_bijective(coordinates, k);
            }
            assert(queue@[0] == coordinates);
            assert forall|c: Coordinates|
                start.tile_map.in_grid(c) && #[trigger] visited@.contains(c.key_spec()) implies queue@.contains(c) by {
                lemma_key_bijective(c, coordinates.key_spec());
            }
            if start.is_open(coordinates) {
                assert(start.reached_within(coordinates, 0).contains(coordinates));
            }
        }
        loop
            invariant
                self.wf(),
                self.tile_map == start.tile_map,
                self.coordinates_marked == start.coordinates_marked,
                self.discovered() == start.discovered().union(result@.to_set()),
                start.tile_map.in_grid(coordinates),
                visited@.contains(coordinates.key_spec()),
                forall|k: u32| #[trigger] visited@.contains(k) ==> k < u32::MAX,
                visited@.finite(),
                visited@.len() <= u32::MAX,
                result@.no_duplicates(),
                forall|i: int| 0 <= i < result@.len() ==> {
                    &&& start.is_open(#[trigger] result@[i])
                    &&& start.flood(coordinates).contains(result@[i])
                    &&& visited@.contains(result@[i].key_spec())
                    &&& !queue@.contains(result@[i])
                },
                queue@.no_duplicates(),
                forall|i: int| 0 <= i < queue@.len() ==> {
                    &&& start.tile_map.in_grid(#[trigger] queue@[i])
                    &&& visited@.contains(queue@[i].key_spec())
                    &&& (start.is_open(queue@[i]) ==> start.flood(coordinates).contains(queue@[i]))
                },
                forall|c: Coordinates|
                    start.tile_map.in_grid(c) && #[trigger] visited@.contains(c.key_spec()) ==> result@.contains(c)
                        || queue@.contains(c) || !start.is_open(c),
                forall|u: Coordinates, v: Coordinates|
                    #[trigger] result@.contains(u) && start.expands(u) && #[trigger] u.is_adjacent(v)
                        && start.tile_map.in_grid(v) ==> visited@.contains(v.key_spec()),
            ensures
                self.wf(),
                self.tile_map == start.tile_map,
                self.coordinates_marked == start.coordinates_marked,
                self.discovered() == start.discovered().union(result@.to_set()),
                result@.no_duplicates(),
                result@.to_set() == start.flood(coordinates),
            decreases 2 * (u32::MAX - visited@.len()) + queue@.len(),
        {
            let ghost queue_before = queue@;
            let current = match queue.dequeue() {
                Some(c) => c,
                None => {
                    proof {
                        start.lemma_bfs_done(coordinates, result@, visited@);
                    }
                    break;
                },
            };
            proof {
                assert(queue_before[0] == current);
                assert forall|c: Coordinates| #[trigger] queue_before.contains(c) && c != current implies queue@.contains(c) by {
                    let i = choose|i: int| 0 <= i < queue_before.len() && queue_before[i] == c;
                    assert(queue@[i - 1] == c);
                }
                assert forall|c: Coordinates| #[trigger] queue@.contains(c) implies queue_before.contains(c) && c != current by {
                    let i = choose|i: int| 0 <= i < queue@.len() && queue@[i] == c;
                    assert(queue_before[i + 1] == c);
                }
            }
            if self.is_flag_at(&current) {
                continue;
            }
            let ghost discovered_before = self.discovered();
            let ghost bomb_before = self.bomb_discovered;
            let ghost result_before = result@;
            let key = current.key();
            self.coordinates_discovered.insert(key);
            if self.tile_map.is_bomb_at(current) {
                self.bomb_discovered = true;
            }
            result.push(current);
            proof {
                assert forall|c: Coordinates| c.key_spec() == key <==> c == current by {
                    lemma_key_bijective(c, key);
                    lemma_key_bijective(current, key);
                }
                assert(self.discovered() =~= discovered_before.insert(current));
                result_before.lemma_push_to_set_commute(current);
                assert(self.discovered() =~= start.discovered().union(result@.to_set()));
                assert forall|k: u32| #[trigger] self.coordinates_discovered@.contains(k) implies self.tile_map.in_grid(from_key(k)) by {
                    if k == key {
                        lemma_key_bijective(current, k);
                    }
                }
                assert(self.discovered().disjoint(self.flagged()));
                if self.tile_map.is_mine(current) {
                    assert(self.discovered().contains(current));
                } else {
                    assert(self.bomb_discovered == bomb_before);
                    if bomb_before {
                        let c = choose|c: Coordinates| #[trigger] discovered_before.contains(c) && self.tile_map.is_mine(c);
                        assert(self.discovered().contains(c));
                    } else {
                        assert forall|c: Coordinates| #[trigger] self.discovered().contains(c) implies !self.tile_map.is_mine(c) by {
                            if c != current {
                                assert(discovered_before.contains(c));
                            }
                        }
                    }
                }
                assert(self.tile_map.wf());
                assert(self.bomb_discovered == exists|c: Coordinates| #[trigger] self.discovered().contains(c) && self.tile_map.is_mine(c));
                assert forall|k: u32| #[trigger] self.coordinates_marked@.contains(k) implies self.tile_map.in_grid(from_key(k)) by {}
                assert(self.wf());
                assert forall|c: Coordinates| #[trigger] result@.contains(c) <==> result_before.contains(c) || c == current by {
                    if result@.contains(c) && c != current {
                        let i = choose|i: int| 0 <= i < result@.len() && result@[i] == c;
                        assert(result_before[i] == c);
                    }
                    if result_before.contains(c) {
                        let i = choose|i: int| 0 <= i < result_before.len() && result_before[i] == c;
                        assert(result@[i] == c);
                    }
                    if c == current {
                        assert(result@[result_before.len() as int] == c);
                    }
                }
            }
            if !self.tile_map.is_empty_at(current) {
                continue;
            }
            let neighbors = self.tile_map.get_neighbor_coordinates(current);
            let ghost measure = 2 * (u32::MAX - visited@.len()) + queue@.len();
            let mut j: usize = 0;
            while j < neighbors.len()
                invariant
                    self.tile_map == start.tile_map,
                    j <= neighbors@.len(),
                    neighbors@ == current.neighbors(),
                    start.expands(current),
                    start.flood(coordinates).contains(current),
                    result@.contains(current),
                    2 * (u32::MAX - visited@.len()) + queue@.len() <= measure,
                    visited@.contains(coordinates.key_spec()),
                    forall|k: u32| #[trigger] visited@.contains(k) ==> k < u32::MAX,
                    visited@.finite(),
                    visited@.len() <= u32::MAX,
                    forall|i: int| 0 <= i < result@.len() ==> {
                        &&& visited@.contains((#[trigger] result@[i]).key_spec())
                        &&& !queue@.contains(result@[i])
                    },
                    queue@.no_duplicates(),
                    forall|i: int| 0 <= i < queue@.len() ==> {
                        &&& start.tile_map.in_grid(#[trigger] queue@[i])
                        &&& visited@.contains(queue@[i].key_spec())
                        &&& (start.is_open(queue@[i]) ==> start.flood(coordinates).contains(queue@[i]))
                    },
                    forall|c: Coordinates|
                        start.tile_map.in_grid(c) && #[trigger] visited@.contains(c.key_spec()) ==> result@.contains(c)
                            || queue@.contains(c) || !start.is_open(c),
                    forall|u: Coordinates, v: Coordinates|
                        #[trigger] result@.contains(u) && u != current && start.expands(u) && #[trigger] u.is_adjacent(v)
                            && start.tile_map.in_grid(v) ==> visited@.contains(v.key_spec()),
                    forall|i: int|
                        0 <= i < j && start.tile_map.in_grid(#[trigger] neighbors@[i]) ==> visited@.contains(
                            neighbors@[i].key_spec(),
                        ),
                decreases neighbors@.len() - j,
            {
                let next = neighbors[j];
                if next.x < self.tile_map.width && next.y < self.tile_map.height && !visited.contains(&next.key()) {
                    let ghost visited_before = visited@;
                    let ghost queue_before2 = queue@;
                    let next_key = next.key();
                    proof {
                        assert(current.is_adjacent(next));
                        if start.is_open(next) {
                            start.lemma_flood_step(coordinates, current, next);
                        }
                        assert forall|c: Coordinates| c.key_spec() == next_key <==> c == next by {
                            lemma_key_bijective(c, next_key);
                            lemma_key_bijective(next, next_key);
                        }
                        lemma_key_bijective(next, next_key);
                        assert(next_key < u32::MAX);
                        assert(!result@.contains(next));
                    }
                    visited.insert(next_key);
                    queue.enqueue(next);
                    proof {
                        assert forall|i: int| 0 <= i < queue@.len() implies {
                            &&& start.tile_map.in_grid(#[trigger] queue@[i])
                            &&& visited@.contains(queue@[i].key_spec())
                            &&& (start.is_open(queue@[i]) ==> start.flood(coordinates).contains(queue@[i]))
                        } by {
                            if i < queue_before2.len() {
                                assert(queue@[i] == queue_before2[i]);
                            }
                        }
                        assert(visited@.subset_of(Set::<u32>::range(0, u32::MAX)));
                        vstd::set_lib::range_set_properties::<u32>(0, u32::MAX);
                        vstd::set_lib::lemma_len_subset(visited@, Set::<u32>::range(0, u32::MAX));
                        assert forall|c: Coordinates| #[trigger] queue@.contains(c) <==> queue_before2.contains(c) || c == next by {
                            if queue@.contains(c) && c != next {
                                let i = choose|i: int| 0 <= i < queue@.len() && queue@[i] == c;
                                assert(queue_before2[i] == c);
                            }
                            if queue_before2.contains(c) {
                                let i = choose|i: int| 0 <= i < queue_before2.len() && queue_before2[i] == c;
                                assert(queue@[i] == c);
                            }
                            if c == next {
                                assert(queue@[queue_before2.len() as int] == c);
                            }
                        }
                    }
                }
                proof {
                    assert(start.tile_map.in_grid(next) ==> visited@.contains(next.key_spec()));
                }
                j = j + 1;
            }
            proof {
                assert forall|u: Coordinates, v: Coordinates|
                    #[trigger] result@.contains(u) && start.expands(u) && #[trigger] u.is_adjacent(v)
                        && start.tile_map.in_grid(v) implies visited@.contains(v.key_spec()) by {
                    if u == current {
                        let i = choose|i: int| 0 <= i < neighbors@.len() && neighbors@[i] == v;
                    }
                }
            }
        }
        proof {
            result@.unique_seq_to_set();
            if !start.is_open(coordinates) {
                start.lemma_flood_closed_origin(coordinates);
            }
            if start.is_open(coordinates) && !start.tile_map.is_empty_cell(coordinates) {
                start.lemma_flood_single(coordinates);
                assert(result@.to_set().contains(result@[0]));
                assert(result@ =~= seq![coordinates]);
            }
        }
        result
    }

    /// A neighbour of a reached cell with no mine around it is reached too, if
    /// it is open.
    pub proof fn lemma_flood_step(&self, origin: Coordinates, u: Coordinates, v: Coordinates)
        requires
            self.flood(origin).contains(u),
            self.expands(u),
            u.is_adjacent(v),
            self.is_open(v),
        ensures
            self.flood(origin).contains(v),
    {
        let n = choose|n: nat| #[trigger] self.reached_within(origin, n).contains(u);
        assert(self.reached_within(origin, n + 1).contains(v));
    }

    /// Nothing is reached from a cell that is not open.
    proof fn lemma_flood_closed_origin(&self, origin: Coordinates)
        requires
            !self.is_open(origin),
        ensures
            self.flood(origin) == Set::<Coordinates>::empty(),
    {
        assert forall|n: nat| #[trigger] self.reached_within(origin, n) == Set::<Coordinates>::empty() by {
            self.lemma_reached_within_closed(origin, n);
        }
        assert(self.flood(origin) =~= Set::<Coordinates>::empty());
    }

    proof fn lemma_reached_within_closed(&self, origin: Coordinates, n: nat)
        requires
            !self.is_open(origin),
        ensures
            self.reached_within(origin, n) == Set::<Coordinates>::empty(),
        decreases n,
    {
        if n == 0 {
            assert(self.reached_within(origin, n) =~= Set::<Coordinates>::empty());
        } else {
            self.lemma_reached_within_closed(origin, (n - 1) as nat);
            assert(self.reached_within(origin, n) =~= Set::<Coordinates>::empty());
        }
    }

    /// From an open cell that does not expand, only that cell is reached.
    proof fn lemma_flood_single(&self, origin: Coordinates)
        requires
            self.is_open(origin),
            !self.tile_map.is_empty_cell(origin),
        ensures
            self.flood(origin) == set![origin],
    {
        assert forall|n: nat| #[trigger] self.reached_within(origin, n) == set![origin] by {
            self.lemma_reached_within_single(origin, n);
        }
        assert(self.reached_within(origin, 0).contains(origin));
        assert(self.flood(origin) =~= set![origin]);
    }

    proof fn lemma_reached_within_single(&self, origin: Coordinates, n: nat)
        requires
            self.is_open(origin),
            !self.tile_map.is_empty_cell(origin),
        ensures
            self.reached_within(origin, n) == set![origin],
        decreases n,
    {
        if n == 0 {
            assert(self.reached_within(origin, n) =~= set![origin]);
        } else {
            self.lemma_reached_within_single(origin, (n - 1) as nat);
            assert(self.reached_within(origin, n) =~= set![origin]);
        }
    }

    /// A set that holds `origin` when it is open, and every open neighbour of each
    /// of its cells that expand, holds every cell reached from `origin`.
    pub proof fn lemma_flood_within(&self, origin: Coordinates, p: Set<Coordinates>)
        requires
            self.is_open(origin) ==> p.contains(origin),
            forall|u: Coordinates, v: Coordinates|
                #[trigger] p.contains(u) && self.expands(u) && #[trigger] u.is_adjacent(v) && self.is_open(v)
                    ==> p.contains(v),
        ensures
            self.flood(origin).subset_of(p),
    {
        assert forall|c: Coordinates| #[trigger] self.flood(origin).contains(c) implies p.contains(c) by {
            let n = choose|n: nat| #[trigger] self.reached_within(origin, n).contains(c);
            self.lemma_reached_within_in(origin, p, n);
        }
    }

    proof fn lemma_reached_within_in(&self, origin: Coordinates, p: Set<Coordinates>, n: nat)
        requires
            self.is_open(origin) ==> p.contains(origin),
            forall|u: Coordinates, v: Coordinates|
                #[trigger] p.contains(u) && self.expands(u) && #[trigger] u.is_adjacent(v) && self.is_open(v)
                    ==> p.contains(v),
        ensures
            self.reached_within(origin, n).subset_of(p),
        decreases n,
    {
        if n > 0 {
            self.lemma_reached_within_in(origin, p, (n - 1) as nat);
        }
    }

    /// When the work list has run dry, the cells discovered are exactly those
    /// reached from `origin`.
    proof fn lemma_bfs_done(&self, origin: Coordinates, result: Seq<Coordinates>, visited: Set<u32>)
        requires
            self.tile_map.in_grid(origin),
            visited.contains(origin.key_spec()),
            forall|i: int| 0 <= i < result.len() ==> self.flood(origin).contains(#[trigger] result[i]),
            forall|c: Coordinates|
                self.tile_map.in_grid(c) && #[trigger] visited.contains(c.key_spec()) ==> result.contains(c)
                    || !self.is_open(c),
            forall|u: Coordinates, v: Coordinates|
                #[trigger] result.contains(u) && self.expands(u) && #[trigger] u.is_adjacent(v)
                    && self.tile_map.in_grid(v) ==> visited.contains(v.key_spec()),
        ensures
            result.to_set() == self.flood(origin),
    {
        let p = result.to_set();
        assert forall|u: Coordinates, v: Coordinates|
            #[trigger] p.contains(u) && self.expands(u) && #[trigger] u.is_adjacent(v) && self.is_open(v)
                implies p.contains(v) by {
            assert(result.contains(u));
            assert(visited.contains(v.key_spec()));
        }
        self.lemma_flood_within(origin, p);
        assert forall|c: Coordinates| #[trigger] p.contains(c) implies self.flood(origin).contains(c) by {
            let i = choose|i: int| 0 <= i < result.len() && result[i] == c;
        }
        assert(p =~= self.flood(origin));
    }
}

/// What a reveal discovers depends only on the map and the flags.
proof fn lemma_flood_same_flags(b1: Board, b2: Board, origin: Coordinates)
    requires
        b1.tile_map == b2.tile_map,
        b1.flagged() == b2.flagged(),
    ensures
        b1.flood(origin) == b2.flood(origin),
{
    assert forall|n: nat| #[trigger] b1.reached_within(origin, n) == b2.reached_within(origin, n) by {
        lemma_reached_within_same_flags(b1, b2, origin, n);
    }
    assert forall|c: Coordinates| #[trigger] b1.flood(origin).contains(c) <==> b2.flood(origin).contains(c) by {
        if b1.flood(origin).contains(c) {
            let n = choose|n: nat| #[trigger] b1.reached_within(origin, n).contains(c);
            assert(b2.reached_within(origin, n).contains(c));
        }
        if b2.flood(origin).contains(c) {
            let n = choose|n: nat| #[trigger] b2.reached_within(origin, n).contains(c);
            assert(b1.reached_within(origin, n).contains(c));
        }
    }
    assert(b1.flood(origin) =~= b2.flood(origin));
}

proof fn lemma_reached_within_same_flags(b1: Board, b2: Board, origin: Coordinates, n: nat)
    requires
        b1.tile_map == b2.tile_map,
        b1.flagged() == b2.flagged(),
    ensures
        b1.reached_within(origin, n) == b2.reached_within(origin, n),
    decreases n,
{
    if n > 0 {
        lemma_reached_within_same_flags(b1, b2, origin, (n - 1) as nat);
    }
    assert(b1.reached_within(origin, n) =~= b2.reached_within(origin, n));
}

/// Revealing a cell a second time, with the flags unchanged, discovers the same
/// cells as the first time and leaves the discovered cells as they are: in
/// particular on a cell that is already discovered, a reveal never takes a cell
/// out of the discovered set nor adds to it what the first reveal did not.
pub proof fn lemma_reveal_twice(first: Board, second: Board, origin: Coordinates)
    requires
        first.wf(),
        second.tile_map == first.tile_map,
        second.flagged() == first.flagged(),
        second.discovered() == first.discovered().union(first.flood(origin)),
    ensures
        second.flood(origin) == first.flood(origin),
        second.discovered().union(second.flood(origin)) == second.discovered(),
        first.discovered().subset_of(second.discovered()),
{
    lemma_flood_same_flags(first, second, origin);
    assert(second.discovered().union(second.flood(origin)) =~= second.discovered());
}

/// No cell is both discovered and flagged, whatever operations led to the board.
pub proof fn lemma_discovered_flagged_disjoint(b: Board)
    requires
        b.wf(),
    ensures
        b.discovered().disjoint(b.flagged()),
        b.discovered().subset_of(Set::new(|c: Coordinates| b.tile_map.in_grid(c))),
        b.flagged().subset_of(Set::new(|c: Coordinates| b.tile_map.in_grid(c))),
{
    assert forall|c: Coordinates| #[trigger] b.discovered().contains(c) implies b.tile_map.in_grid(c) by {
        lemma_key_bijective(c, c.key_spec());
    }
    assert forall|c: Coordinates| #[trigger] b.flagged().contains(c) implies b.tile_map.in_grid(c) by {
        lemma_key_bijective(c, c.key_spec());
    }
}

/// On a map without mines and a board without flags, a reveal of any cell of the
/// grid discovers the whole grid.
pub proof fn lemma_reveal_empty_grid(b: Board, origin: Coordinates)
    requires
        b.wf(),
        b.tile_map.bomb_count == 0,
        b.flagged() == Set::<Coordinates>::empty(),
        b.tile_map.in_grid(origin),
    ensures
        b.flood(origin) == Set::new(|c: Coordinates| b.tile_map.in_grid(c)),
{
    lemma_no_bombs_all_empty(b.tile_map);
    assert forall|c: Coordinates| #[trigger] b.tile_map.in_grid(c) implies b.flood(origin).contains(c) by {
        let dx = if c.x >= origin.x { c.x - origin.x } else { origin.x - c.x };
        let dy = if c.y >= origin.y { c.y - origin.y } else { origin.y - c.y };
        let d: nat = if dx >= dy { dx as nat } else { dy as nat };
        lemma_reached_open_grid(b, origin, d);
        assert(b.reached_within(origin, d).contains(c));
    }
    assert forall|c: Coordinates| #[trigger] b.flood(origin).contains(c) implies b.tile_map.in_grid(c) by {
        let n = choose|n: nat| #[trigger] b.reached_within(origin, n).contains(c);
        lemma_reached_in_grid(b, origin, n);
    }
    assert(b.flood(origin) =~= Set::new(|c: Coordinates| b.tile_map.in_grid(c)));
}

proof fn lemma_reached_in_grid(b: Board, origin: Coordinates, n: nat)
    ensures
        forall|c: Coordinates| #[trigger] b.reached_within(origin, n).contains(c) ==> b.tile_map.in_grid(c),
    decreases n,
{
    if n > 0 {
        lemma_reached_in_grid(b, origin, (n - 1) as nat);
        let prev = b.reached_within(origin, (n - 1) as nat);
        assert forall|c: Coordinates| #[trigger] b.reached_within(origin, n).contains(c) implies b.tile_map.in_grid(c) by {
            if !prev.contains(c) {
                assert(b.is_open(c));
            }
        }
    }
}

/// On an open grid where every cell is empty, a reveal reaches in `n` steps every
/// cell at most `n` rows and `n` columns away.
proof fn lemma_reached_open_grid(b: Board, origin: Coordinates, n: nat)
    requires
        b.flagged() == Set::<Coordinates>::empty(),
        b.tile_map.in_grid(origin),
        forall|c: Coordinates| #[trigger] b.tile_map.in_grid(c) ==> b.tile_map.tile(c) == Tile::Empty,
    ensures
        forall|c: Coordinates|
            #[trigger] b.tile_map.in_grid(c) && -n <= c.x - origin.x <= n && -n <= c.y - origin.y <= n
                ==> b.reached_within(origin, n).contains(c),
    decreases n,
{
    if n == 0 {
        assert forall|c: Coordinates|
            #[trigger] b.tile_map.in_grid(c) && -n <= c.x - origin.x <= n && -n <= c.y - origin.y <= n
                implies b.reached_within(origin, n).contains(c) by {
            assert(c == origin);
        }
    } else {
        let m = (n - 1) as nat;
        lemma_reached_open_grid(b, origin, m);
        assert forall|c: Coordinates|
            #[trigger] b.tile_map.in_grid(c) && -n <= c.x - origin.x <= n && -n <= c.y - origin.y <= n
                implies b.reached_within(origin, n).contains(c) by {
            let prev = b.reached_within(origin, m);
            let ux: int = if c.x > origin.x { c.x - 1 } else if c.x < origin.x { c.x + 1 } else { c.x as int };
            let uy: int = if c.y > origin.y { c.y - 1 } else if c.y < origin.y { c.y + 1 } else { c.y as int };
            let u = Coordinates { x: ux as u16, y: uy as u16 };
            assert(b.tile_map.in_grid(u));
            assert(prev.contains(u));
            if u != c {
                lemma_neighbors(u);
                assert(u.is_adjacent(c));
                assert(b.expands(u));
            }
        }
    }
}

/// Flags seal off a region: when every open neighbour of a cell of `region` that
/// expands lies in `region` itself, so that every way out passes through a flag,
/// a reveal of a cell of `region` discovers nothing outside it. Nor does it ever
/// discover a flagged cell.
pub proof fn lemma_reveal_stops_at_flags(b: Board, origin: Coordinates, region: Set<Coordinates>)
    requires
        b.wf(),
        region.contains(origin),
        forall|u: Coordinates, v: Coordinates|
            #[trigger] region.contains(u) && b.expands(u) && #[trigger] u.is_adjacent(v) && b.tile_map.in_grid(v)
                && !region.contains(v) ==> b.flagged().contains(v),
    ensures
        b.flood(origin).subset_of(region),
        b.flood(origin).disjoint(b.flagged()),
{
    b.lemma_flood_within(origin, region);
    assert forall|c: Coordinates| #[trigger] b.flood(origin).contains(c) implies !b.flagged().contains(c) by {
        let n = choose|n: nat| #[trigger] b.reached_within(origin, n).contains(c);
        lemma_reached_open(b, origin, n);
    }
}

proof fn lemma_reached_open(b: Board, origin: Coordinates, n: nat)
    ensures
        forall|c: Coordinates| #[trigger] b.reached_within(origin, n).contains(c) ==> b.is_open(c),
    decreases n,
{
    if n > 0 {
        lemma_reached_open(b, origin, (n - 1) as nat);
        let prev = b.reached_within(origin, (n - 1) as nat);
        assert forall|c: Coordinates| #[trigger] b.reached_within(origin, n).contains(c) implies b.is_open(c) by {
            if !prev.contains(c) {
                assert(b.is_open(c));
            }
        }
    }
}

} // verus!
