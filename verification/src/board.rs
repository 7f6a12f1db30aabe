//! The board model: one puzzle configuration, its mathematical state, and
//! the parser that builds a board from a textual description.

use vstd::prelude::*;
use vstd::string::StrSliceExecFns;
use crate::geom::{Pos, in_bounds};

verus! {

/// The mathematical content of a board. Coordinate lists are abstracted to
/// sets: two boards with the same walls, targets, blocks (as sets), player
/// and size are the same puzzle state, whatever the order of the lists.
#[verifier::ext_equal]
pub struct BoardState {
    pub size: (int, int),
    pub walls: Set<(int, int)>,
    pub targets: Set<(int, int)>,
    pub blocks: Set<(int, int)>,
    pub player: (int, int),
}

/// The set of coordinates held by a list of positions.
pub open spec fn pos_set(s: Seq<Pos>) -> Set<(int, int)> {
    Set::new(|q: (int, int)| exists|k: int| 0 <= k < s.len() && (#[trigger] s[k])@ == q)
}

/// One puzzle configuration. `size`, `walls` and `targets` are fixed for a
/// whole search; `blocks` and `player` are the changing state.
#[derive(PartialEq, Eq, Clone, Debug, Hash)]
pub struct Board {
    pub size: Pos,
    pub blocks: Vec<Pos>,
    pub targets: Vec<Pos>,
    pub walls: Vec<Pos>,
    pub player: Pos,
}

impl View for Board {
    type V = BoardState;

    open spec fn view(&self) -> BoardState {
        BoardState {
            size: self.size@,
            walls: pos_set(self.walls@),
            targets: pos_set(self.targets@),
            blocks: pos_set(self.blocks@),
            player: self.player@,
        }
    }
}

impl Board {
    /// Well-formedness: the size is non-negative and leaves headroom for
    /// one-step displacements, the player is in bounds, and the block list
    /// holds no coordinate twice (so replacing one entry moves one block).
    pub open spec fn wf(&self) -> bool {
        &&& 0 <= self.size.x <= i64::MAX - 2
        &&& 0 <= self.size.y <= i64::MAX - 2
        &&& in_bounds(self.player@, self.size@)
        &&& forall|i: int, j: int|
            0 <= i < j < self.blocks@.len() ==> self.blocks@[i] != self.blocks@[j]
    }

    /// An empty board: zero size, no walls, targets or blocks, player at the
    /// origin.
    pub fn new() -> (b: Board)
        ensures
            b.size.x == 0 && b.size.y == 0,
            b.player.x == 0 && b.player.y == 0,
            b.blocks@.len() == 0,
            b.targets@.len() == 0,
            b.walls@.len() == 0,
            b.wf(),
    {
        Board {
            size: Pos { x: 0, y: 0 },
            blocks: Vec::new(),
            targets: Vec::new(),
            walls: Vec::new(),
            player: Pos { x: 0, y: 0 },
        }
    }
}

/// An exact copy of a board.
pub fn copy_board(b: &Board) -> (r: Board)
    ensures
        r.size == b.size,
        r.player == b.player,
        r.blocks@ == b.blocks@,
        r.targets@ == b.targets@,
        r.walls@ == b.walls@,
        r@ == b@,
        b.wf() ==> r.wf(),
{
    Board {
        size: b.size,
        blocks: copy_positions(&b.blocks),
        targets: copy_positions(&b.targets),
        walls: copy_positions(&b.walls),
        player: b.player,
    }
}

/// Whether the list `v` holds the coordinate `p`.
pub fn contains_pos(v: &Vec<Pos>, p: Pos) -> (r: bool)
    ensures
        r == pos_set(v@).contains(p@),
        r == v@.contains(p),
{
    let mut k: usize = 0;
    while k < v.len()
        invariant
            k <= v@.len(),
            forall|m: int| 0 <= m < k ==> v@[m] != p,
        decreases v@.len() - k,
    {
        if v[k].x == p.x && v[k].y == p.y {
            assert(v@[k as int] == p);
            assert(pos_set(v@).contains(p@));
            assert(v@.contains(p));
            return true;
        }
        k += 1;
    }
    proof {
        assert forall|q: int| !(0 <= q < v@.len() && v@[q] == p) by {
            if 0 <= q < v@.len() {
                assert(v@[q] != p);
            }
        }
        assert(!pos_set(v@).contains(p@)) by {
            if pos_set(v@).contains(p@) {
                let k2 = choose|k2: int| 0 <= k2 < v@.len() && (#[trigger] v@[k2])@ == p@;
                assert(v@[k2] == p);
            }
        }
    }
    false
}

/// The index of the coordinate `p` in the list `v`, if it is there.
pub fn find_pos(v: &Vec<Pos>, p: Pos) -> (r: Option<usize>)
    ensures
        r is Some <==> pos_set(v@).contains(p@),
        (r matches Some(i) ==> i < v@.len() && v@[i as int] == p),
{
    let mut k: usize = 0;
    while k < v.len()
        invariant
            k <= v@.len(),
            forall|m: int| 0 <= m < k ==> v@[m] != p,
        decreases v@.len() - k,
    {
        if v[k].x == p.x && v[k].y == p.y {
            assert(v@[k as int] == p);
            assert(pos_set(v@).contains(p@));
            return Some(k);
        }
        k += 1;
    }
    proof {
        if pos_set(v@).contains(p@) {
            let k2 = choose|k2: int| 0 <= k2 < v@.len() && (#[trigger] v@[k2])@ == p@;
            assert(v@[k2] == p);
        }
    }
    None
}

/// An exact copy of a coordinate list.
pub fn copy_positions(v: &Vec<Pos>) -> (r: Vec<Pos>)
    ensures
        r@ == v@,
{
    let mut r: Vec<Pos> = Vec::new();
    let mut k: usize = 0;
    while k < v.len()
        invariant
            k <= v@.len(),
            r@ == v@.take(k as int),
        decreases v@.len() - k,
    {
        r.push(v[k]);
        proof {
            assert(v@.take(k + 1int) =~= v@.take(k as int).push(v@[k as int]));
        }
        k += 1;
    }
    proof {
        assert(v@.take(v@.len() as int) =~= v@);
    }
    r
}

/// Whether every coordinate of `v0` also stands in `v1`.
fn positions_subset(v0: &Vec<Pos>, v1: &Vec<Pos>) -> (r: bool)
    ensures
        r == forall|m: int| 0 <= m < v0@.len() ==> pos_set(v1@).contains((#[trigger] v0@[m])@),
{
    let mut k: usize = 0;
    while k < v0.len()
        invariant
            k <= v0@.len(),
            forall|m: int| 0 <= m < k ==> pos_set(v1@).contains((#[trigger] v0@[m])@),
        decreases v0@.len() - k,
    {
        if !contains_pos(v1, v0[k]) {
            return false;
        }
        k += 1;
    }
    true
}

/// Set equality of two coordinate lists: each is contained in the other,
/// so order and repetition are ignored.
pub fn same_board(v0: &Vec<Pos>, v1: &Vec<Pos>) -> (r: bool)
    ensures
        r == (pos_set(v0@) == pos_set(v1@)),
{
    let r = positions_subset(v0, v1) && positions_subset(v1, v0);
    proof {
        if r {
            assert(pos_set(v0@) =~= pos_set(v1@)) by {
                assert forall|q: (int, int)| pos_set(v0@).contains(q) implies pos_set(v1@).contains(
                    q,
                ) by {
                    let k = choose|k: int| 0 <= k < v0@.len() && (#[trigger] v0@[k])@ == q;
                    assert(pos_set(v1@).contains(v0@[k]@));
                };
                assert forall|q: (int, int)| pos_set(v1@).contains(q) implies pos_set(v0@).contains(
                    q,
                ) by {
                    let k = choose|k: int| 0 <= k < v1@.len() && (#[trigger] v1@[k])@ == q;
                    assert(pos_set(v0@).contains(v1@[k]@));
                };
            };
        } else {
            if !(forall|m: int|
                0 <= m < v0@.len() ==> pos_set(v1@).contains((#[trigger] v0@[m])@)) {
                let m = choose|m: int|
                    0 <= m < v0@.len() && !pos_set(v1@).contains((#[trigger] v0@[m])@);
                assert(pos_set(v0@).contains(v0@[m]@));
            } else {
                let m = choose|m: int|
                    0 <= m < v1@.len() && !pos_set(v0@).contains((#[trigger] v1@[m])@);
                assert(pos_set(v1@).contains(v1@[m]@));
            }
        }
    }
    r
}

/// State equality of two boards: equal sizes, players, and coordinate sets.
pub fn boards_equal(a: &Board, b: &Board) -> (r: bool)
    ensures
        r == (a@ == b@),
{
    let r = a.size.x == b.size.x && a.size.y == b.size.y && a.player.x == b.player.x && a.player.y
        == b.player.y && same_board(&a.blocks, &b.blocks) && same_board(&a.walls, &b.walls)
        && same_board(&a.targets, &b.targets);
    proof {
        if r {
            assert(a@ =~= b@);
        }
    }
    r
}

/// Board state is a property of the coordinate sets alone: two boards whose
/// block, wall and target lists hold the same coordinates, in whatever
/// order, with whatever repetition, are the same state.
pub proof fn lemma_state_ignores_order(a: Board, b: Board)
    requires
        a.size == b.size,
        a.player == b.player,
        a.blocks@.to_set() == b.blocks@.to_set(),
        a.walls@.to_set() == b.walls@.to_set(),
        a.targets@.to_set() == b.targets@.to_set(),
    ensures
        a@ == b@,
{
    lemma_pos_set_from_to_set(a.blocks@, b.blocks@);
    lemma_pos_set_from_to_set(a.walls@, b.walls@);
    lemma_pos_set_from_to_set(a.targets@, b.targets@);
    assert(a@ =~= b@);
}

/// Two position lists with the same underlying set have the same coordinate
/// set.
pub proof fn lemma_pos_set_from_to_set(v0: Seq<Pos>, v1: Seq<Pos>)
    requires
        v0.to_set() == v1.to_set(),
    ensures
        pos_set(v0) == pos_set(v1),
{
    assert(pos_set(v0) =~= pos_set(v1)) by {
        assert forall|q: (int, int)| pos_set(v0).contains(q) implies pos_set(v1).contains(q) by {
            let k = choose|k: int| 0 <= k < v0.len() && (#[trigger] v0[k])@ == q;
            assert(v0.to_set().contains(v0[k]));
            assert(v1.to_set().contains(v0[k]));
            let m = choose|m: int| 0 <= m < v1.len() && v1[m] == v0[k];
            assert((#[trigger] v1[m])@ == q);
        };
        assert forall|q: (int, int)| pos_set(v1).contains(q) implies pos_set(v0).contains(q) by {
            let k = choose|k: int| 0 <= k < v1.len() && (#[trigger] v1[k])@ == q;
            assert(v1.to_set().contains(v1[k]));
            assert(v0.to_set().contains(v1[k]));
            let m = choose|m: int| 0 <= m < v0.len() && v0[m] == v1[k];
            assert((#[trigger] v0[m])@ == q);
        };
    };
}

/// The parse-time failure: the block count and target count differ, or the
/// rows are not all of the first row's length.
#[derive(PartialEq, Eq, Structural, Clone, Copy, Debug)]
pub struct MalformedBoard;

/// The board alphabet, one predicate per role a cell can play.
pub open spec fn is_wall_char(c: char) -> bool {
    c == '#'
}

pub open spec fn is_block_char(c: char) -> bool {
    c == '$' || c == '*'
}

pub open spec fn is_target_char(c: char) -> bool {
    c == '.' || c == '*' || c == '+'
}

pub open spec fn is_player_char(c: char) -> bool {
    c == '@' || c == '+'
}

/// The grid of characters described by a list of text lines.
pub open spec fn grid_of(lines: Seq<String>) -> Seq<Seq<char>> {
    lines.map_values(|l: String| l@)
}

/// Whether `q` names a cell of the grid, as an (x, y) pair indexing row y.
pub open spec fn on_grid(g: Seq<Seq<char>>, q: (int, int)) -> bool {
    0 <= q.1 < g.len() && 0 <= q.0 < g[q.1].len()
}

pub open spec fn cell_at(g: Seq<Seq<char>>, q: (int, int)) -> char {
    g[q.1][q.0]
}

/// Every row has the first row's length.
pub open spec fn rectangular(g: Seq<Seq<char>>) -> bool {
    forall|i: int| 0 <= i < g.len() ==> (#[trigger] g[i]).len() == g[0].len()
}

/// Whether the cell `q` comes before the cell (j, i) in row-major scan
/// order.
pub open spec fn scanned_before(q: (int, int), i: int, j: int) -> bool {
    q.1 < i || (q.1 == i && q.0 < j)
}

/// The wall cells of the grid that lie before the scan position (j, i).
pub open spec fn walls_upto(g: Seq<Seq<char>>, i: int, j: int) -> Set<(int, int)> {
    Set::new(|q: (int, int)| on_grid(g, q) && scanned_before(q, i, j) && is_wall_char(cell_at(g, q)))
}

pub open spec fn blocks_upto(g: Seq<Seq<char>>, i: int, j: int) -> Set<(int, int)> {
    Set::new(
        |q: (int, int)| on_grid(g, q) && scanned_before(q, i, j) && is_block_char(cell_at(g, q)),
    )
}

pub open spec fn targets_upto(g: Seq<Seq<char>>, i: int, j: int) -> Set<(int, int)> {
    Set::new(
        |q: (int, int)| on_grid(g, q) && scanned_before(q, i, j) && is_target_char(cell_at(g, q)),
    )
}

/// The wall cells of the whole grid; likewise for blocks and targets.
pub open spec fn walls_of(g: Seq<Seq<char>>) -> Set<(int, int)> {
    walls_upto(g, g.len() as int, 0)
}

pub open spec fn blocks_of(g: Seq<Seq<char>>) -> Set<(int, int)> {
    blocks_upto(g, g.len() as int, 0)
}

pub open spec fn targets_of(g: Seq<Seq<char>>) -> Set<(int, int)> {
    targets_upto(g, g.len() as int, 0)
}

/// How many block cells a row holds.
pub open spec fn count_row_blocks(row: Seq<char>) -> nat
    decreases row.len(),
{
    if row.len() == 0 {
        0
    } else {
        count_row_blocks(row.drop_last()) + if is_block_char(row.last()) {
            1nat
        } else {
            0nat
        }
    }
}

pub open spec fn count_row_targets(row: Seq<char>) -> nat
    decreases row.len(),
{
    if row.len() == 0 {
        0
    } else {
        count_row_targets(row.drop_last()) + if is_target_char(row.last()) {
            1nat
        } else {
            0nat
        }
    }
}

/// How many block cells the grid holds.
pub open spec fn count_blocks(g: Seq<Seq<char>>) -> nat
    decreases g.len(),
{
    if g.len() == 0 {
        0
    } else {
        count_blocks(g.drop_last()) + count_row_blocks(g.last())
    }
}

pub open spec fn count_targets(g: Seq<Seq<char>>) -> nat
    decreases g.len(),
{
    if g.len() == 0 {
        0
    } else {
        count_targets(g.drop_last()) + count_row_targets(g.last())
    }
}

/// Whether the cell `q` carries the player.
pub open spec fn player_cell(g: Seq<Seq<char>>, q: (int, int)) -> bool {
    on_grid(g, q) && is_player_char(cell_at(g, q))
}

pub open spec fn has_player(g: Seq<Seq<char>>) -> bool {
    exists|q: (int, int)| player_cell(g, q)
}

/// The player position a scan of the grid yields: the last player cell in
/// row-major order, or the origin when the grid names no player.
pub open spec fn player_ok(g: Seq<Seq<char>>, p: (int, int)) -> bool {
    if has_player(g) {
        &&& player_cell(g, p)
        &&& forall|q: (int, int)|
            player_cell(g, q) ==> (q == p || scanned_before(q, p.1, p.0))
    } else {
        p == (0int, 0int)
    }
}

/// Appending a coordinate to a list adds exactly its value to the list's
/// coordinate set.
proof fn lemma_pos_set_push(v: Seq<Pos>, p: Pos)
    ensures
        pos_set(v.push(p)) == pos_set(v).insert(p@),
{
    assert(pos_set(v.push(p)) =~= pos_set(v).insert(p@)) by {
        assert forall|q: (int, int)| pos_set(v.push(p)).contains(q) implies pos_set(v).insert(
            p@,
        ).contains(q) by {
            let k = choose|k: int| 0 <= k < v.push(p).len() && (#[trigger] v.push(p)[k])@ == q;
            if k < v.len() {
                assert((#[trigger] v[k])@ == q);
            }
        };
        assert forall|q: (int, int)| pos_set(v).insert(p@).contains(q) implies pos_set(
            v.push(p),
        ).contains(q) by {
            if q == p@ {
                assert((#[trigger] v.push(p)[v.len() as int])@ == q);
            } else {
                let k = choose|k: int| 0 <= k < v.len() && (#[trigger] v[k])@ == q;
                assert((#[trigger] v.push(p)[k])@ == q);
            }
        };
    };
}

/// One scan step extends the per-row block count by one exactly on a block
/// cell; likewise for targets.
proof fn lemma_count_row_blocks_take(row: Seq<char>, j: int)
    requires
        0 <= j < row.len(),
    ensures
        count_row_blocks(row.take(j + 1)) == count_row_blocks(row.take(j)) + if is_block_char(
            row[j],
        ) {
            1nat
        } else {
            0nat
        },
{
    assert(row.take(j + 1).drop_last() =~= row.take(j));
    assert(row.take(j + 1).last() == row[j]);
}

proof fn lemma_count_row_targets_take(row: Seq<char>, j: int)
    requires
        0 <= j < row.len(),
    ensures
        count_row_targets(row.take(j + 1)) == count_row_targets(row.take(j)) + if is_target_char(
            row[j],
        ) {
            1nat
        } else {
            0nat
        },
{
    assert(row.take(j + 1).drop_last() =~= row.take(j));
    assert(row.take(j + 1).last() == row[j]);
}

/// The player position a partial scan has settled on: with `found`, `p` is
/// the last player cell of the scanned region; without, the region holds no
/// player cell and `p` is the origin.
spec fn player_partial(g: Seq<Seq<char>>, i: int, j: int, found: bool, p: (int, int)) -> bool {
    if found {
        &&& player_cell(g, p)
        &&& scanned_before(p, i, j)
        &&& forall|q: (int, int)|
            player_cell(g, q) && scanned_before(q, i, j) ==> (q == p || scanned_before(q, p.1, p.0))
    } else {
        &&& p == (0int, 0int)
        &&& forall|q: (int, int)| player_cell(g, q) ==> !scanned_before(q, i, j)
    }
}

/// One finished row extends the grid count by that row's count.
proof fn lemma_count_grid_take(g: Seq<Seq<char>>, i: int)
    requires
        0 <= i < g.len(),
    ensures
        count_blocks(g.take(i + 1)) == count_blocks(g.take(i)) + count_row_blocks(g[i]),
        count_targets(g.take(i + 1)) == count_targets(g.take(i)) + count_row_targets(g[i]),
{
    assert(g.take(i + 1).drop_last() =~= g.take(i));
    assert(g.take(i + 1).last() == g[i]);
}

/// Parses a board description: a list of equal-length text lines over the
/// alphabet `#` wall, `$` block, `.` target, `*` block on target, `@`
/// player, `+` player on target, space empty. The scan is row-major; a later
/// player symbol overrides an earlier one. Returns the board and the list of
/// target cells, or `MalformedBoard` when the rows are not all of the first
/// row's length or the block count differs from the target count.
pub fn build_board(st: &Vec<String>) -> (r: Result<(Board, Vec<Pos>), MalformedBoard>)
    requires
        st@.len() >= 1,
        st@.len() <= i64::MAX - 2,
        forall|i: int| 0 <= i < st@.len() ==> (#[trigger] st@[i])@.len() <= i64::MAX - 2,
    ensures
        (r matches Ok(bs) ==> {
            let g = grid_of(st@);
            &&& rectangular(g)
            &&& count_blocks(g) == count_targets(g)
            &&& bs.0.wf()
            &&& bs.0@.size == ((g[0].len() as int, g.len() as int))
            &&& bs.0@.walls == walls_of(g)
            &&& bs.0@.blocks == blocks_of(g)
            &&& bs.0@.targets == targets_of(g)
            &&& player_ok(g, bs.0@.player)
            &&& bs.1@ == bs.0.targets@
            &&& bs.0.blocks@.len() == count_blocks(g)
            &&& bs.0.targets@.len() == count_targets(g)
            &&& bs.0.blocks@.len() == bs.0.targets@.len()
        }),
        r is Err <==> !(rectangular(grid_of(st@)) && count_blocks(grid_of(st@)) == count_targets(
            grid_of(st@),
        )),
{
    let ghost g = grid_of(st@);
    proof {
        assert(g.len() == st@.len());
        assert forall|m: int| 0 <= m < g.len() implies g[m] == (#[trigger] st@[m])@ by {}
    }
    let first_len = st[0].as_str().unicode_len();
    let mut i: usize = 1;
    while i < st.len()
        invariant
            1 <= i <= st@.len(),
            g == grid_of(st@),
            g.len() == st@.len(),
            forall|m: int| 0 <= m < g.len() ==> g[m] == (#[trigger] st@[m])@,
            first_len == g[0].len(),
            forall|m: int| 0 <= m < i ==> (#[trigger] g[m]).len() == g[0].len(),
        decreases st@.len() - i,
    {
        if st[i].as_str().unicode_len() != first_len {
            proof {
                assert(g[i as int].len() != g[0].len());
                assert(!rectangular(g));
            }
            return Err(MalformedBoard);
        }
        i += 1;
    }
    assert(rectangular(g));
    let mut blocks: Vec<Pos> = Vec::new();
    let mut targets: Vec<Pos> = Vec::new();
    let mut walls: Vec<Pos> = Vec::new();
    let mut s: Vec<Pos> = Vec::new();
    let mut player = Pos { x: 0, y: 0 };
    let ghost mut pfound = false;
    proof {
        assert(pos_set(walls@) =~= walls_upto(g, 0, 0));
        assert(pos_set(blocks@) =~= blocks_upto(g, 0, 0));
        assert(pos_set(targets@) =~= targets_upto(g, 0, 0));
        assert(g.take(0int) =~= Seq::<Seq<char>>::empty());
    }
    let mut y: usize = 0;
    while y < st.len()
        invariant
            y <= st@.len(),
            1 <= st@.len() <= i64::MAX - 2,
            forall|m: int| 0 <= m < st@.len() ==> (#[trigger] st@[m])@.len() <= i64::MAX - 2,
            g == grid_of(st@),
            g.len() == st@.len(),
            forall|m: int| 0 <= m < g.len() ==> g[m] == (#[trigger] st@[m])@,
            rectangular(g),
            first_len == g[0].len(),
            pos_set(walls@) == walls_upto(g, y as int, 0),
            pos_set(blocks@) == blocks_upto(g, y as int, 0),
            pos_set(targets@) == targets_upto(g, y as int, 0),
            blocks@.len() == count_blocks(g.take(y as int)),
            targets@.len() == count_targets(g.take(y as int)),
            s@ == targets@,
            forall|k: int|
                0 <= k < blocks@.len() ==> scanned_before((#[trigger] blocks@[k])@, y as int, 0),
            forall|k1: int, k2: int|
                0 <= k1 < k2 < blocks@.len() ==> blocks@[k1] != blocks@[k2],
            player_partial(g, y as int, 0, pfound, player@),
        decreases st@.len() - y,
    {
        let row = st[y].as_str();
        let row_len = row.unicode_len();
        proof {
            assert(row@ == g[y as int]);
            assert(row_len == g[y as int].len());
        }
        let mut x: usize = 0;
        while x < row_len
            invariant
                y < st@.len(),
                x <= row_len,
                1 <= st@.len() <= i64::MAX - 2,
                forall|m: int| 0 <= m < st@.len() ==> (#[trigger] st@[m])@.len() <= i64::MAX - 2,
                g == grid_of(st@),
                g.len() == st@.len(),
                forall|m: int| 0 <= m < g.len() ==> g[m] == (#[trigger] st@[m])@,
                rectangular(g),
                row@ == g[y as int],
                row_len == g[y as int].len(),
                pos_set(walls@) == walls_upto(g, y as int, x as int),
                pos_set(blocks@) == blocks_upto(g, y as int, x as int),
                pos_set(targets@) == targets_upto(g, y as int, x as int),
                blocks@.len() == count_blocks(g.take(y as int)) + count_row_blocks(
                    g[y as int].take(x as int),
                ),
                targets@.len() == count_targets(g.take(y as int)) + count_row_targets(
                    g[y as int].take(x as int),
                ),
                s@ == targets@,
                forall|k: int|
                    0 <= k < blocks@.len() ==> scanned_before(
                        (#[trigger] blocks@[k])@,
                        y as int,
                        x as int,
                    ),
                forall|k1: int, k2: int|
                    0 <= k1 < k2 < blocks@.len() ==> blocks@[k1] != blocks@[k2],
                player_partial(g, y as int, x as int, pfound, player@),
            decreases row_len - x,
        {
            let ghost xi = x as int;
            let ghost yi = y as int;
            let ghost qq = (xi, yi);
            let c = row.get_char(x);
            let pos = Pos { x: x as i64, y: y as i64 };
            proof {
                assert(pos@ == qq);
                assert(cell_at(g, qq) == c);
                assert(on_grid(g, qq));
                assert(!scanned_before(qq, yi, xi));
            }
            let ghost walls0 = walls@;
            let ghost blocks0 = blocks@;
            let ghost targets0 = targets@;
            let ghost pfound0 = pfound;
            let ghost player0 = player@;
            match c {
                '$' => {
                    blocks.push(pos);
                },
                '#' => {
                    walls.push(pos);
                },
                '*' => {
                    blocks.push(pos);
                    targets.push(pos);
                    s.push(pos);
                },
                '.' => {
                    targets.push(pos);
                    s.push(pos);
                },
                '+' => {
                    player = pos;
                    targets.push(pos);
                    s.push(pos);
                    proof {
                        pfound = true;
                    }
                },
                '@' => {
                    player = pos;
                    proof {
                        pfound = true;
                    }
                },
                _ => {},
            }
            proof {
                // walls
                if c == '#' {
                    lemma_pos_set_push(walls0, pos);
                    assert(walls_upto(g, yi, xi + 1) =~= walls_upto(g, yi, xi).insert(qq));
                } else {
                    assert(!is_wall_char(cell_at(g, qq)));
                    assert(walls_upto(g, yi, xi + 1) =~= walls_upto(g, yi, xi));
                }
                assert(pos_set(walls@) == walls_upto(g, yi, xi + 1));
                // blocks
                if c == '$' || c == '*' {
                    lemma_pos_set_push(blocks0, pos);
                    assert(blocks_upto(g, yi, xi + 1) =~= blocks_upto(g, yi, xi).insert(qq));
                    assert(blocks@ == blocks0.push(pos));
                    assert forall|k1: int, k2: int|
                        0 <= k1 < k2 < blocks@.len() implies blocks@[k1] != blocks@[k2] by {
                        if k2 == blocks0.len() {
                            assert(scanned_before((#[trigger] blocks0[k1])@, yi, xi));
                            assert(blocks0[k1]@ != qq);
                        }
                    }
                } else {
                    assert(!is_block_char(cell_at(g, qq)));
                    assert(blocks_upto(g, yi, xi + 1) =~= blocks_upto(g, yi, xi));
                }
                assert(pos_set(blocks@) == blocks_upto(g, yi, xi + 1));
                assert forall|k: int|
                    0 <= k < blocks@.len() implies scanned_before(
                    (#[trigger] blocks@[k])@,
                    yi,
                    xi + 1,
                ) by {
                    if k < blocks0.len() {
                        assert(scanned_before(blocks0[k]@, yi, xi));
                    }
                }
                // targets
                if c == '*' || c == '.' || c == '+' {
                    lemma_pos_set_push(targets0, pos);
                    assert(targets_upto(g, yi, xi + 1) =~= targets_upto(g, yi, xi).insert(qq));
                } else {
                    assert(!is_target_char(cell_at(g, qq)));
                    assert(targets_upto(g, yi, xi + 1) =~= targets_upto(g, yi, xi));
                }
                assert(pos_set(targets@) == targets_upto(g, yi, xi + 1));
                // counts
                lemma_count_row_blocks_take(g[yi], xi);
                lemma_count_row_targets_take(g[yi], xi);
                assert(g[yi][xi] == c);
                // player
                if c == '@' || c == '+' {
                    assert(player_cell(g, qq));
                    assert(player@ == qq);
                    assert forall|q: (int, int)|
                        player_cell(g, q) && scanned_before(q, yi, xi + 1) implies (q == qq
                        || scanned_before(q, qq.1, qq.0)) by {
                        if q != qq {
                            assert(scanned_before(q, yi, xi));
                        }
                    }
                    assert(player_partial(g, yi, xi + 1, pfound, player@));
                } else {
                    assert(!player_cell(g, qq));
                    if pfound0 {
                        assert forall|q: (int, int)|
                            player_cell(g, q) && scanned_before(q, yi, xi + 1) implies (q
                            == player0 || scanned_before(q, player0.1, player0.0)) by {
                            assert(q != qq);
                            assert(scanned_before(q, yi, xi));
                        }
                        assert(player_partial(g, yi, xi + 1, pfound, player@));
                    } else {
                        assert forall|q: (int, int)| player_cell(g, q) implies !scanned_before(
                            q,
                            yi,
                            xi + 1,
                        ) by {
                            assert(q != qq);
                            assert(!scanned_before(q, yi, xi));
                        }
                        assert(player_partial(g, yi, xi + 1, pfound, player@));
                    }
                }
            }
            x += 1;
        }
        proof {
            let yi = y as int;
            let rl = g[yi].len() as int;
            assert(walls_upto(g, yi, rl) =~= walls_upto(g, yi + 1, 0));
            assert(blocks_upto(g, yi, rl) =~= blocks_upto(g, yi + 1, 0));
            assert(targets_upto(g, yi, rl) =~= targets_upto(g, yi + 1, 0));
            lemma_count_grid_take(g, yi);
            assert(g[yi].take(rl) =~= g[yi]);
            assert forall|k: int|
                0 <= k < blocks@.len() implies scanned_before(
                (#[trigger] blocks@[k])@,
                yi + 1,
                0,
            ) by {
                assert(scanned_before(blocks@[k]@, yi, rl));
            }
            // player: a player cell of row yi lies before column rl
            if pfound {
                assert(scanned_before(player@, yi + 1, 0));
                assert forall|q: (int, int)|
                    player_cell(g, q) && scanned_before(q, yi + 1, 0) implies (q == player@
                    || scanned_before(q, player@.1, player@.0)) by {
                    assert(on_grid(g, q));
                    assert(scanned_before(q, yi, rl));
                }
                assert(player_partial(g, yi + 1, 0, pfound, player@));
            } else {
                assert forall|q: (int, int)| player_cell(g, q) implies !scanned_before(
                    q,
                    yi + 1,
                    0,
                ) by {
                    assert(on_grid(g, q));
                    assert(!scanned_before(q, yi, rl));
                }
                assert(player_partial(g, yi + 1, 0, pfound, player@));
            }
        }
        y += 1;
    }
    let size = Pos { x: first_len as i64, y: st.len() as i64 };
    proof {
        let n = g.len() as int;
        assert(g.take(n) =~= g);
        assert(size@ == ((g[0].len() as int, g.len() as int)));
        // the player is in bounds
        if pfound {
            assert(player_cell(g, player@));
            assert(g[player@.1].len() == g[0].len());
            assert(in_bounds(player@, size@));
        } else {
            assert(in_bounds(player@, size@));
        }
    }
    if blocks.len() != targets.len() {
        return Err(MalformedBoard);
    }
    let b = Board { size, blocks, targets, walls, player };
    proof {
        assert(b.wf());
        assert(b@.walls == walls_of(g));
        assert(b@.blocks == blocks_of(g));
        assert(b@.targets == targets_of(g));
        if pfound {
            assert(has_player(g));
            assert forall|q: (int, int)| player_cell(g, q) implies (q == player@ || scanned_before(
                q,
                player@.1,
                player@.0,
            )) by {
                assert(on_grid(g, q));
                assert(scanned_before(q, g.len() as int, 0));
            }
            assert(player_ok(g, b@.player));
        } else {
            assert(!has_player(g)) by {
                if has_player(g) {
                    let q = choose|q: (int, int)| player_cell(g, q);
                    assert(scanned_before(q, g.len() as int, 0));
                }
            }
            assert(player_ok(g, b@.player));
        }
    }
    Ok((b, s))
}

} // verus!
