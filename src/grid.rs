//! Board geometry: cell indexing, ships and the hidden target board.

use vstd::multiset::Multiset;
use vstd::prelude::*;

verus! {

broadcast use vstd::seq_lib::group_to_multiset_ensures, vstd::multiset::group_multiset_axioms;

/// Number of columns of the board.
pub const BOARD_WIDTH: u32 = 10;

/// Number of rows of the board.
pub const BOARD_HEIGHT: u32 = 10;

/// Number of cells of the board; cells are numbered row by row.
pub const BOARD_SIZE: usize = 100;

/// The lengths of the ships that every player places, each exactly once.
pub const SHIP_LENGTHS: [u32; 5] = [5, 4, 3, 3, 2];

/// The total length of the fleet: the hit-points of each player.
pub const TOTAL_SHIP_HEALTH: u32 = 17;

/// The fleet as a sequence of lengths.
pub open spec fn fleet() -> Seq<u32> {
    seq![5u32, 4u32, 3u32, 3u32, 2u32]
}

/// The cell in column `x` of row `y`.
pub open spec fn cell_index(x: int, y: int) -> int {
    y * 10 + x
}

/// Whether the ship whose first cell is (`x`, `y`), of length `len`, running
/// down a column when `vertical` and along a row otherwise, covers cell `c`.
pub open spec fn ship_covers(x: int, y: int, len: int, vertical: bool, c: int) -> bool {
    &&& 0 <= c < BOARD_SIZE
    &&& if vertical {
        c % 10 == x && y <= c / 10 < y + len
    } else {
        c / 10 == y && x <= c % 10 < x + len
    }
}

/// Whether that ship lies wholly on the board.
pub open spec fn ship_fits(x: int, y: int, len: int, vertical: bool) -> bool {
    &&& 0 <= x < BOARD_WIDTH
    &&& 0 <= y < BOARD_HEIGHT
    &&& if vertical {
        y + len <= BOARD_HEIGHT
    } else {
        x + len <= BOARD_WIDTH
    }
}

/// Whether no cell of that ship is occupied in `cells`.
pub open spec fn ship_clear(cells: Seq<bool>, x: int, y: int, len: int, vertical: bool) -> bool {
    forall|c: int| #[trigger] ship_covers(x, y, len, vertical, c) ==> !cells[c]
}

/// Whether a ship may be placed on a board with occupancy `cells` that still
/// requires the lengths `required`.
pub open spec fn placement_allowed(
    cells: Seq<bool>,
    required: Multiset<u32>,
    x: int,
    y: int,
    len: u32,
    vertical: bool,
) -> bool {
    &&& required.count(len) > 0
    &&& ship_fits(x, y, len as int, vertical)
    &&& ship_clear(cells, x, y, len as int, vertical)
}

/// The occupancy `cells` with the cells of that ship added.
pub open spec fn with_ship(cells: Seq<bool>, x: int, y: int, len: int, vertical: bool) -> Seq<bool> {
    Seq::new(cells.len(), |c: int| cells[c] || ship_covers(x, y, len, vertical, c))
}

/// The number of `true` entries of `s`.
pub open spec fn count_true(s: Seq<bool>) -> nat
    decreases s.len(),
{
    if s.len() == 0 {
        0
    } else {
        count_true(s.drop_last()) + if s.last() {
            1nat
        } else {
            0nat
        }
    }
}

/// Setting one `false` entry to `true` adds one to the count.
pub proof fn lemma_count_true_set(s: Seq<bool>, k: int)
    requires
        0 <= k < s.len(),
        !s[k],
    ensures
        count_true(s.update(k, true)) == count_true(s) + 1,
    decreases s.len(),
{
    let t = s.update(k, true);
    if k == s.len() - 1 {
        assert(t.drop_last() =~= s.drop_last());
    } else {
        assert(t.drop_last() =~= s.drop_last().update(k, true));
        lemma_count_true_set(s.drop_last(), k);
    }
}

/// An entry-wise smaller sequence has no larger count.
pub proof fn lemma_count_true_subset(a: Seq<bool>, b: Seq<bool>)
    requires
        a.len() == b.len(),
        forall|i: int| 0 <= i < a.len() && #[trigger] a[i] ==> b[i],
    ensures
        count_true(a) <= count_true(b),
    decreases a.len(),
{
    if a.len() > 0 {
        lemma_count_true_subset(a.drop_last(), b.drop_last());
    }
}

/// An all-`false` sequence counts zero.
pub proof fn lemma_count_true_none(s: Seq<bool>)
    requires
        forall|i: int| 0 <= i < s.len() ==> !#[trigger] s[i],
    ensures
        count_true(s) == 0,
    decreases s.len(),
{
    if s.len() > 0 {
        lemma_count_true_none(s.drop_last());
    }
}

/// The count never exceeds the length.
pub proof fn lemma_count_true_bound(s: Seq<bool>)
    ensures
        count_true(s) <= s.len(),
    decreases s.len(),
{
    if s.len() > 0 {
        lemma_count_true_bound(s.drop_last());
    }
}

/// A cell index splits back into its column and row.
proof fn lemma_cell_coords(x: int, y: int)
    requires
        0 <= x < 10,
    ensures
        cell_index(x, y) % 10 == x,
        cell_index(x, y) / 10 == y,
{
    vstd::arithmetic::div_mod::lemma_fundamental_div_mod_converse(cell_index(x, y), 10, y, x);
}

/// A ship: its first cell, its length, and whether it runs down a column.
#[derive(Clone, Copy)]
pub struct Ship {
    x_coord: u32,
    y_coord: u32,
    length: u32,
    vertical: bool,
}

impl Ship {
    /// Creates the ship whose first cell is (`x`, `y`).
    pub fn new(x: u32, y: u32, len: u32, vert: bool) -> (r: Self)
        ensures
            r.x() == x,
            r.y() == y,
            r.len() == len,
            r.is_vertical() == vert,
    {
        Self { x_coord: x, y_coord: y, length: len, vertical: vert }
    }

    /// Column of the first cell.
    pub closed spec fn x(self) -> u32 {
        self.x_coord
    }

    /// Row of the first cell.
    pub closed spec fn y(self) -> u32 {
        self.y_coord
    }

    /// Number of cells covered.
    pub closed spec fn len(self) -> u32 {
        self.length
    }

    /// Whether the ship runs down a column.
    pub closed spec fn is_vertical(self) -> bool {
        self.vertical
    }

    /// Whether the ship covers cell `c`.
    pub open spec fn covers(self, c: int) -> bool {
        ship_covers(self.x() as int, self.y() as int, self.len() as int, self.is_vertical(), c)
    }
}

/// The total length of a sequence of ships.
pub open spec fn lengths_sum(ships: Seq<Ship>) -> nat
    decreases ships.len(),
{
    if ships.len() == 0 {
        0
    } else {
        lengths_sum(ships.drop_last()) + ships.last().len() as nat
    }
}

/// The lengths of a sequence of ships.
pub open spec fn lengths_of(ships: Seq<Ship>) -> Seq<u32> {
    ships.map_values(|s: Ship| s.len())
}

/// Whether some ship of `ships` covers cell `c`.
pub open spec fn fleet_covers(ships: Seq<Ship>, c: int) -> bool {
    exists|k: int| 0 <= k < ships.len() && #[trigger] ships[k].covers(c)
}

/// Whether no cell is covered by two ships of `ships`.
pub open spec fn fleet_disjoint(ships: Seq<Ship>) -> bool {
    forall|k1: int, k2: int, c: int|
        0 <= k1 < ships.len() && 0 <= k2 < ships.len() && k1 != k2 && #[trigger] ships[k1].covers(c)
            ==> !#[trigger] ships[k2].covers(c)
}

/// The invariant of a board made of `ships`, still requiring `required`, with
/// occupancy `cells`: every ship lies on the board, the occupancy is exactly
/// the union of the ships, no two ships share a cell, the occupied count is the
/// total length placed, and the placed and still required lengths make up the
/// fleet.
pub open spec fn board_wf(ships: Seq<Ship>, required: Seq<u32>, cells: Seq<bool>) -> bool {
    &&& cells.len() == BOARD_SIZE
    &&& forall|k: int|
        0 <= k < ships.len() ==> {
            let s = #[trigger] ships[k];
            ship_fits(s.x() as int, s.y() as int, s.len() as int, s.is_vertical())
        }
    &&& forall|c: int| 0 <= c < BOARD_SIZE ==> (#[trigger] cells[c] <==> fleet_covers(ships, c))
    &&& fleet_disjoint(ships)
    &&& count_true(cells) == lengths_sum(ships)
    &&& required.to_multiset().add(lengths_of(ships).to_multiset()) == fleet().to_multiset()
    &&& seq_sum(required) + lengths_sum(ships) == TOTAL_SHIP_HEALTH
}

/// The sum of a sequence of lengths.
pub open spec fn seq_sum(s: Seq<u32>) -> nat
    decreases s.len(),
{
    if s.len() == 0 {
        0
    } else {
        seq_sum(s.drop_last()) + s.last() as nat
    }
}

/// Removing an entry takes it off the sum.
proof fn lemma_seq_sum_remove(s: Seq<u32>, i: int)
    requires
        0 <= i < s.len(),
    ensures
        seq_sum(s.remove(i)) + s[i] == seq_sum(s),
    decreases s.len(),
{
    if i == s.len() - 1 {
        assert(s.remove(i) =~= s.drop_last());
    } else {
        assert(s.remove(i).drop_last() =~= s.drop_last().remove(i));
        lemma_seq_sum_remove(s.drop_last(), i);
    }
}

/// The cell of segment `i` of the ship whose first cell is (`x`, `y`).
pub open spec fn segment(x: int, y: int, i: int, vertical: bool) -> int {
    if vertical {
        cell_index(x, y + i)
    } else {
        cell_index(x + i, y)
    }
}

/// A ship one segment longer covers exactly one more cell: that segment.
proof fn lemma_segment(x: int, y: int, i: int, vertical: bool)
    requires
        0 <= x < 10,
        0 <= y < 10,
        0 <= i,
        vertical ==> y + i < 10,
        !vertical ==> x + i < 10,
    ensures
        0 <= segment(x, y, i, vertical) < BOARD_SIZE,
        ship_covers(x, y, i + 1, vertical, segment(x, y, i, vertical)),
        !ship_covers(x, y, i, vertical, segment(x, y, i, vertical)),
        forall|c: int|
            #[trigger] ship_covers(x, y, i + 1, vertical, c) <==> (ship_covers(x, y, i, vertical, c)
                || c == segment(x, y, i, vertical)),
{
    if vertical {
        lemma_cell_coords(x, y + i);
    } else {
        lemma_cell_coords(x + i, y);
    }
    assert forall|c: int|
        #[trigger] ship_covers(x, y, i + 1, vertical, c) <==> (ship_covers(x, y, i, vertical, c)
            || c == segment(x, y, i, vertical)) by {
        if 0 <= c < BOARD_SIZE {
            vstd::arithmetic::div_mod::lemma_fundamental_div_mod(c, 10);
        }
    }
}

/// Position of the first entry of `v` equal to `x`.
fn position_of(v: &Vec<u32>, x: u32) -> (r: Option<usize>)
    ensures
        r matches Some(i) ==> i < v@.len() && v@[i as int] == x,
        r is None ==> !v@.contains(x),
{
    let mut i: usize = 0;
    while i < v.len()
        invariant
            i <= v@.len(),
            forall|j: int| 0 <= j < i ==> v@[j] != x,
        decreases v@.len() - i,
    {
        if v[i] == x {
            return Some(i);
        }
        i = i + 1;
    }
    None
}

/// The cell of segment `i` of a ship.
fn segment_cell(x: u32, y: u32, i: u32, vertical: bool) -> (r: usize)
    requires
        x < BOARD_WIDTH,
        y < BOARD_HEIGHT,
        vertical ==> y + i < BOARD_HEIGHT,
        !vertical ==> x + i < BOARD_WIDTH,
    ensures
        r == segment(x as int, y as int, i as int, vertical),
{
    if vertical {
        ((y + i) * BOARD_WIDTH + x) as usize
    } else {
        (y * BOARD_WIDTH + x + i) as usize
    }
}

/// Whether none of the cells of a ship is set in `cells`.
fn ship_is_clear(cells: &Vec<bool>, x: u32, y: u32, len: u32, vertical: bool) -> (r: bool)
    requires
        cells@.len() == BOARD_SIZE,
        ship_fits(x as int, y as int, len as int, vertical),
    ensures
        r == ship_clear(cells@, x as int, y as int, len as int, vertical),
{
    let mut i: u32 = 0;
    while i < len
        invariant
            i <= len,
            cells@.len() == BOARD_SIZE,
            ship_fits(x as int, y as int, len as int, vertical),
            ship_clear(cells@, x as int, y as int, i as int, vertical),
        decreases len - i,
    {
        proof {
            lemma_segment(x as int, y as int, i as int, vertical);
        }
        let c = segment_cell(x, y, i, vertical);
        if cells[c] {
            proof {
                assert(ship_covers(x as int, y as int, len as int, vertical, c as int));
            }
            return false;
        }
        i = i + 1;
    }
    true
}

/// Sets the cells of a ship in `cells`.
fn mark_ship(cells: &mut Vec<bool>, x: u32, y: u32, len: u32, vertical: bool)
    requires
        old(cells)@.len() == BOARD_SIZE,
        ship_fits(x as int, y as int, len as int, vertical),
        ship_clear(old(cells)@, x as int, y as int, len as int, vertical),
    ensures
        final(cells)@ == with_ship(old(cells)@, x as int, y as int, len as int, vertical),
        count_true(final(cells)@) == count_true(old(cells)@) + len,
{
    let mut i: u32 = 0;
    while i < len
        invariant
            i <= len,
            ship_fits(x as int, y as int, len as int, vertical),
            ship_clear(old(cells)@, x as int, y as int, len as int, vertical),
            old(cells)@.len() == BOARD_SIZE,
            cells@ == with_ship(old(cells)@, x as int, y as int, i as int, vertical),
            count_true(cells@) == count_true(old(cells)@) + i,
        decreases len - i,
    {
        proof {
            lemma_segment(x as int, y as int, i as int, vertical);
        }
        let c = segment_cell(x, y, i, vertical);
        proof {
            assert(ship_covers(x as int, y as int, len as int, vertical, c as int));
            assert(!cells@[c as int]);
            lemma_count_true_set(cells@, c as int);
        }
        cells[c] = true;
        i = i + 1;
        proof {
            assert(cells@ =~= with_ship(old(cells)@, x as int, y as int, i as int, vertical));
        }
    }
}

/// Records a ship in the three parts of a board, keeping the board's invariant.
fn add_ship(
    ships: &mut Vec<Ship>,
    required: &mut Vec<u32>,
    cells: &mut Vec<bool>,
    pos: usize,
    ship: Ship,
)
    requires
        board_wf(old(ships)@, old(required)@, old(cells)@),
        pos < old(required)@.len(),
        old(required)@[pos as int] == ship.len(),
        ship_fits(ship.x() as int, ship.y() as int, ship.len() as int, ship.is_vertical()),
        ship_clear(old(cells)@, ship.x() as int, ship.y() as int, ship.len() as int, ship.is_vertical()),
    ensures
        board_wf(final(ships)@, final(required)@, final(cells)@),
        final(ships)@ == old(ships)@.push(ship),
        final(required)@ == old(required)@.remove(pos as int),
        final(cells)@ == with_ship(old(cells)@, ship.x() as int, ship.y() as int, ship.len() as int, ship.is_vertical()),
{
    let ghost old_ships = ships@;
    let ghost old_cells = cells@;
    let ghost old_required = required@;
    ships.push(ship);
    required.remove(pos);
    mark_ship(cells, ship.x_coord, ship.y_coord, ship.length, ship.vertical);
    proof {
        let n = old_ships.len() as int;
        assert(ships@[n] == ship);
        assert forall|c: int| 0 <= c < BOARD_SIZE implies (#[trigger] cells@[c] <==> fleet_covers(ships@, c)) by {
            if old_cells[c] {
                let k = choose|k: int| 0 <= k < old_ships.len() && #[trigger] old_ships[k].covers(c);
                assert(ships@[k] == old_ships[k]);
            }
            if fleet_covers(ships@, c) {
                let k = choose|k: int| 0 <= k < ships@.len() && #[trigger] ships@[k].covers(c);
                if k < n {
                    assert(ships@[k] == old_ships[k]);
                    assert(fleet_covers(old_ships, c));
                }
            }
            if ship.covers(c) {
                assert(ships@[n].covers(c));
            }
        }
        assert forall|k1: int, k2: int, c: int|
            0 <= k1 < ships@.len() && 0 <= k2 < ships@.len() && k1 != k2 && #[trigger] ships@[k1].covers(c)
                implies !#[trigger] ships@[k2].covers(c) by {
            if k1 < n && k2 < n {
                assert(ships@[k1] == old_ships[k1]);
                assert(ships@[k2] == old_ships[k2]);
            } else if k1 == n {
                assert(ships@[k2] == old_ships[k2]);
                if old_ships[k2].covers(c) {
                    assert(fleet_covers(old_ships, c));
                    assert(old_cells[c]);
                }
            } else {
                assert(ships@[k1] == old_ships[k1]);
                assert(fleet_covers(old_ships, c));
                assert(old_cells[c]);
            }
        }
        assert forall|k: int| 0 <= k < ships@.len() implies {
            let s = #[trigger] ships@[k];
            ship_fits(s.x() as int, s.y() as int, s.len() as int, s.is_vertical())
        } by {
            if k < n {
                assert(ships@[k] == old_ships[k]);
            }
        }
        assert(ships@.drop_last() =~= old_ships);
        assert(lengths_of(ships@) =~= lengths_of(old_ships).push(ship.len()));
        assert(required@.to_multiset().add(lengths_of(ships@).to_multiset()) =~= fleet().to_multiset());
        lemma_seq_sum_remove(old_required, pos as int);
    }
}

/// A player's hidden layout: the ships placed so far, the lengths still to
/// place, and which cells hold a ship.
pub struct TargetBoard {
    ships: Vec<Ship>,
    ships_required: Vec<u32>,
    cells_containing_ships: Vec<bool>,
}

impl View for TargetBoard {
    type V = Seq<bool>;

    /// Which cells hold a ship.
    closed spec fn view(&self) -> Seq<bool> {
        self.cells_containing_ships@
    }
}

impl TargetBoard {
    /// The board's invariant: every ship lies on the board, the occupancy is
    /// exactly the union of the ships, no two ships share a cell, the occupied
    /// count is the total length placed, and the placed and still required
    /// lengths make up the fleet.
    #[verifier::type_invariant]
    pub closed spec fn wf(self) -> bool {
        board_wf(self.ships@, self.ships_required@, self.cells_containing_ships@)
    }

    /// The lengths that must still be placed.
    pub closed spec fn required(self) -> Multiset<u32> {
        self.ships_required@.to_multiset()
    }

    /// The ships placed so far, in order of placement.
    pub closed spec fn ships(self) -> Seq<Ship> {
        self.ships@
    }

    /// Whether every ship of the fleet has been placed.
    pub open spec fn is_complete(self) -> bool {
        self.required().len() == 0
    }

    /// The number of occupied cells.
    pub open spec fn coverage(self) -> nat {
        count_true(self@)
    }

    /// An empty board that requires the whole fleet.
    pub fn new() -> (r: Self)
        ensures
            r@ == Seq::new(BOARD_SIZE as nat, |c: int| false),
            r.required() == fleet().to_multiset(),
            r.ships().len() == 0,
    {
        let mut cells: Vec<bool> = Vec::new();
        let mut i: usize = 0;
        while i < BOARD_SIZE
            invariant
                i <= BOARD_SIZE,
                cells@ == Seq::new(i as nat, |c: int| false),
            decreases BOARD_SIZE - i,
        {
            cells.push(false);
            i = i + 1;
        }
        let mut required: Vec<u32> = Vec::new();
        let mut k: usize = 0;
        while k < SHIP_LENGTHS.len()
            invariant
                k <= 5,
                required@ == fleet().take(k as int),
            decreases 5 - k,
        {
            assert(SHIP_LENGTHS@ == fleet());
            required.push(SHIP_LENGTHS[k]);
            assert(fleet().take(k as int).push(fleet()[k as int]) =~= fleet().take(k as int + 1));
            k = k + 1;
        }
        assert(fleet().take(5) =~= fleet());
        let ships: Vec<Ship> = Vec::new();
        proof {
            lemma_count_true_none(cells@);
            assert(lengths_of(ships@) =~= Seq::<u32>::empty());
            assert(lengths_of(ships@).to_multiset() =~= Multiset::empty());
            assert(required@.to_multiset().add(Multiset::empty()) =~= fleet().to_multiset());
            reveal_with_fuel(seq_sum, 6);
            assert(fleet().drop_last().drop_last().drop_last().drop_last().drop_last() =~= Seq::<u32>::empty());
        }
        let r = TargetBoard { ships, ships_required: required, cells_containing_ships: cells };
        r
    }

    /// Places a ship whose first cell is (`x_coord`, `y_coord`) when its length
    /// is still required, it lies wholly on the board and it shares no cell
    /// with a ship already placed; otherwise leaves the board as it is.
    pub fn place_ship(&mut self, x_coord: u32, y_coord: u32, ship_length: u32, vertical: bool)
        ensures
            placement_allowed(old(self)@, old(self).required(), x_coord as int, y_coord as int, ship_length, vertical) ==> {
                &&& final(self)@ == with_ship(old(self)@, x_coord as int, y_coord as int, ship_length as int, vertical)
                &&& final(self).required() == old(self).required().remove(ship_length)
                &&& final(self).ships().len() == old(self).ships().len() + 1
                &&& final(self).ships().drop_last() == old(self).ships()
                &&& final(self).ships().last().x() == x_coord
                &&& final(self).ships().last().y() == y_coord
                &&& final(self).ships().last().len() == ship_length
                &&& final(self).ships().last().is_vertical() == vertical
            },
            !placement_allowed(old(self)@, old(self).required(), x_coord as int, y_coord as int, ship_length, vertical) ==> {
                &&& final(self)@ == old(self)@
                &&& final(self).required() == old(self).required()
                &&& final(self).ships() == old(self).ships()
            },
    {
        proof {
            use_type_invariant(&*self);
        }
        let pos = position_of(&self.ships_required, ship_length);
        match pos {
            Some(p) => {
                let fits = x_coord < BOARD_WIDTH && y_coord < BOARD_HEIGHT && if vertical {
                    ship_length <= BOARD_HEIGHT - y_coord
                } else {
                    ship_length <= BOARD_WIDTH - x_coord
                };
                if fits && ship_is_clear(&self.cells_containing_ships, x_coord, y_coord, ship_length, vertical) {
                    let ghost old_ships = self.ships@;
                    let new_ship = Ship::new(x_coord, y_coord, ship_length, vertical);
                    let mut taken = TargetBoard::new();
                    std::mem::swap(self, &mut taken);
                    let TargetBoard { mut ships, mut ships_required, mut cells_containing_ships } = taken;
                    add_ship(&mut ships, &mut ships_required, &mut cells_containing_ships, p, new_ship);
                    *self = TargetBoard { ships, ships_required, cells_containing_ships };
                    proof {
                        assert(self.ships@.drop_last() =~= old_ships);
                    }
                }
            },
            None => {
                proof {
                    assert(self.ships_required@.to_multiset().count(ship_length) == 0);
                }
            },
        }
    }

    /// Whether cell `cell_number` holds a ship.
    pub fn check_hit(&self, cell_number: usize) -> (r: bool)
        requires
            cell_number < BOARD_SIZE,
        ensures
            r == self@[cell_number as int],
    {
        proof {
            use_type_invariant(self);
        }
        self.cells_containing_ships[cell_number]
    }

    /// Whether every ship of the fleet has been placed.
    pub fn all_ships_placed(&self) -> (r: bool)
        ensures
            r == self.is_complete(),
    {
        self.ships_required.len() == 0
    }

    /// The lengths that must still be placed.
    pub fn required_lengths(&self) -> (r: &Vec<u32>)
        ensures
            r@.to_multiset() == self.required(),
    {
        &self.ships_required
    }

    /// The number of occupied cells.
    pub fn occupied_count(&self) -> (r: usize)
        ensures
            r == self.coverage(),
    {
        proof {
            use_type_invariant(self);
        }
        let mut n: usize = 0;
        let mut i: usize = 0;
        while i < BOARD_SIZE
            invariant
                i <= BOARD_SIZE,
                self.cells_containing_ships@.len() == BOARD_SIZE,
                n == count_true(self.cells_containing_ships@.take(i as int)),
                n <= i,
            decreases BOARD_SIZE - i,
        {
            proof {
                let s = self.cells_containing_ships@;
                assert(s.take(i as int + 1).drop_last() =~= s.take(i as int));
            }
            if self.cells_containing_ships[i] {
                n = n + 1;
            }
            i = i + 1;
        }
        proof {
            assert(self.cells_containing_ships@.take(BOARD_SIZE as int) =~= self.cells_containing_ships@);
        }
        n
    }
}

/// On every board every ship lies on the board, the number of occupied cells
/// is the total length of the ships placed, the occupied cells are exactly
/// those that some ship covers, no cell is covered by two ships, and the
/// lengths placed together with those still required make up the fleet. Once
/// the whole fleet is placed, the board holds one ship per length of the
/// fleet and the number of occupied cells is the total length of the fleet.
pub proof fn lemma_coverage_is_fleet_length(b: TargetBoard)
    requires
        b.wf(),
    ensures
        b@.len() == BOARD_SIZE,
        forall|k: int|
            0 <= k < b.ships().len() ==> {
                let s = #[trigger] b.ships()[k];
                ship_fits(s.x() as int, s.y() as int, s.len() as int, s.is_vertical())
            },
        b.coverage() == lengths_sum(b.ships()),
        forall|c: int| 0 <= c < BOARD_SIZE ==> (#[trigger] b@[c] <==> fleet_covers(b.ships(), c)),
        fleet_disjoint(b.ships()),
        b.required().add(lengths_of(b.ships()).to_multiset()) == fleet().to_multiset(),
        b.is_complete() ==> lengths_of(b.ships()).to_multiset() == fleet().to_multiset(),
        b.is_complete() ==> b.ships().len() == fleet().len(),
        b.is_complete() ==> b.coverage() == TOTAL_SHIP_HEALTH,
{
    if b.is_complete() {
        assert(b.ships_required@.len() == 0);
        assert(b.required() =~= Multiset::empty());
        assert(Multiset::<u32>::empty().add(lengths_of(b.ships()).to_multiset()) =~= lengths_of(b.ships()).to_multiset());
        assert(lengths_of(b.ships()).to_multiset().len() == lengths_of(b.ships()).len());
        assert(fleet().to_multiset().len() == fleet().len());
    }
}

/// Any two boards with the whole fleet placed occupy the same number of cells.
pub proof fn lemma_complete_boards_agree(a: TargetBoard, b: TargetBoard)
    requires
        a.wf(),
        b.wf(),
        a.is_complete(),
        b.is_complete(),
    ensures
        a.coverage() == b.coverage(),
{
    lemma_coverage_is_fleet_length(a);
    lemma_coverage_is_fleet_length(b);
}

} // verus!
