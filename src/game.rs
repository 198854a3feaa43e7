//! The board and the replay engine that rebuilds it from a move list.
use crate::parser::{move_spec, moves_view, properties_view, Color, GameTree, Move, MoveSpec};
use crate::text::{parse_u8, parsed_below};
use vstd::hash_map::StringHashMap;
use vstd::prelude::*;

verus! {

/// A square grid of points, each empty or holding a stone.
#[derive(Debug, Clone)]
pub struct Board {
    pub size: u8,
    /// Rows of points; `wf` says that there are `size` rows of `size` points.
    pub grid: Vec<Vec<Option<Color>>>,
}

/// The empty board of side `size`, as rows of points.
pub open spec fn empty_cells(size: nat) -> Seq<Seq<Option<Color>>> {
    Seq::new(size, |r: int| Seq::new(size, |c: int| None::<Color>))
}

/// `b` with the point at `row`, `col` set to `v`.
pub open spec fn with_cell(
    b: Seq<Seq<Option<Color>>>,
    row: int,
    col: int,
    v: Option<Color>,
) -> Seq<Seq<Option<Color>>> {
    b.update(row, b[row].update(col, v))
}

/// `b` after move `m`: its stone stands at its column and row; a pass changes nothing.
pub open spec fn apply_move(b: Seq<Seq<Option<Color>>>, m: MoveSpec) -> Seq<Seq<Option<Color>>> {
    match m.1 {
        Some(pos) => with_cell(b, pos.1 as int, pos.0 as int, Some(m.0)),
        None => b,
    }
}

/// The board of side `size` after the first `k` moves of `ms`, from an empty board.
pub open spec fn replay(ms: Seq<MoveSpec>, k: nat, size: nat) -> Seq<Seq<Option<Color>>>
    decreases k,
{
    if k == 0 {
        empty_cells(size)
    } else {
        apply_move(replay(ms, (k - 1) as nat, size), ms[k - 1])
    }
}

/// Every move of `ms` lies on a board of side `size`.
pub open spec fn moves_fit(ms: Seq<MoveSpec>, size: nat) -> bool {
    forall|i: int|
        0 <= i < ms.len() ==> match (#[trigger] ms[i]).1 {
            Some(pos) => pos.0 < size && pos.1 < size,
            None => true,
        }
}

impl View for Board {
    type V = Seq<Seq<Option<Color>>>;

    open spec fn view(&self) -> Seq<Seq<Option<Color>>> {
        self.grid@.map_values(|row: Vec<Option<Color>>| row@)
    }
}

impl Board {
    /// The grid has `size` rows of `size` points.
    pub open spec fn wf(&self) -> bool {
        &&& self@.len() == self.size
        &&& forall|r: int| 0 <= r < self.size ==> (#[trigger] self@[r]).len() == self.size
    }

    /// An empty board of side `size`.
    pub fn new(size: u8) -> (b: Board)
        ensures
            b.wf(),
            b.size == size,
            b@ == empty_cells(size as nat),
    {
        let mut grid: Vec<Vec<Option<Color>>> = Vec::new();
        let mut r: u8 = 0;
        while r < size
            invariant
                r <= size,
                grid@.map_values(|row: Vec<Option<Color>>| row@) == Seq::new(
                    r as nat,
                    |i: int| Seq::new(size as nat, |c: int| None::<Color>),
                ),
            decreases size - r,
        {
            let mut row: Vec<Option<Color>> = Vec::new();
            let mut c: u8 = 0;
            while c < size
                invariant
                    c <= size,
                    row@ == Seq::new(c as nat, |j: int| None::<Color>),
                decreases size - c,
            {
                row.push(None);
                c = c + 1;
                assert(row@ =~= Seq::new(c as nat, |j: int| None::<Color>));
            }
            let ghost before = grid@;
            grid.push(row);
            r = r + 1;
            proof {
                assert(grid@.map_values(|row: Vec<Option<Color>>| row@) =~= Seq::new(
                    r as nat,
                    |i: int| Seq::new(size as nat, |c: int| None::<Color>),
                )) by {
                    before.lemma_push_map_commute(|row: Vec<Option<Color>>| row@, row);
                }
            }
        }
        let b = Board { size, grid };
        assert(b@ =~= empty_cells(size as nat));
        b
    }

    /// The point at `row`, `col`.
    pub fn get(&self, row: u8, col: u8) -> (r: Option<Color>)
        requires
            self.wf(),
            row < self.size,
            col < self.size,
        ensures
            r == self@[row as int][col as int],
    {
        assert(self@[row as int] == self.grid@[row as int]@);
        self.grid[row as usize][col as usize]
    }

    /// Puts a stone of `color` at `row`, `col`.
    pub fn set(&mut self, row: u8, col: u8, color: Color)
        requires
            old(self).wf(),
            row < old(self).size,
            col < old(self).size,
        ensures
            final(self).wf(),
            final(self).size == old(self).size,
            final(self)@ == with_cell(old(self)@, row as int, col as int, Some(color)),
    {
        self.put(row, col, Some(color));
    }

    /// Empties the point at `row`, `col`.
    pub fn clear(&mut self, row: u8, col: u8)
        requires
            old(self).wf(),
            row < old(self).size,
            col < old(self).size,
        ensures
            final(self).wf(),
            final(self).size == old(self).size,
            final(self)@ == with_cell(old(self)@, row as int, col as int, None),
    {
        self.put(row, col, None);
    }

    fn put(&mut self, row: u8, col: u8, v: Option<Color>)
        requires
            old(self).wf(),
            row < old(self).size,
            col < old(self).size,
        ensures
            final(self).wf(),
            final(self).size == old(self).size,
            final(self)@ == with_cell(old(self)@, row as int, col as int, v),
    {
        let ghost before = self@;
        assert(self@[row as int] == self.grid@[row as int]@);
        let mut line: Vec<Option<Color>> = Vec::new();
        self.grid.set_and_swap(row as usize, &mut line);
        line.set(col as usize, v);
        self.grid.set(row as usize, line);
        assert(self@ =~= with_cell(before, row as int, col as int, v));
    }
}

/// The cursor after `next` from cursor `c` over `n` moves: one further on,
/// or at the end back to 0 when looping and unchanged otherwise.
pub open spec fn next_cursor(c: nat, n: nat, looping: bool) -> nat {
    if c < n {
        c + 1
    } else if looping {
        0
    } else {
        c
    }
}

/// The cursor after `previous` from cursor `c`: one back, and 0 stays 0.
pub open spec fn previous_cursor(c: nat) -> nat {
    if c > 0 {
        (c - 1) as nat
    } else {
        0
    }
}

/// The cursor after `k` calls of `next` from cursor `c` over `n` moves.
pub open spec fn next_times(c: nat, n: nat, looping: bool, k: nat) -> nat
    decreases k,
{
    if k == 0 {
        c
    } else {
        next_cursor(next_times(c, n, looping, (k - 1) as nat), n, looping)
    }
}

/// The cursor after `k` calls of `previous` from cursor `c`.
pub open spec fn previous_times(c: nat, k: nat) -> nat
    decreases k,
{
    if k == 0 {
        c
    } else {
        previous_cursor(previous_times(c, (k - 1) as nat))
    }
}

/// `k` steps forward from the start, with `k` at most the number of moves,
/// reach cursor `k`.
pub proof fn lemma_next_times_from_start(n: nat, looping: bool, k: nat)
    requires
        k <= n,
    ensures
        next_times(0, n, looping, k) == k,
    decreases k,
{
    if k > 0 {
        lemma_next_times_from_start(n, looping, (k - 1) as nat);
    }
}

/// `k` steps back from cursor `c`, with `k` at most `c`, reach cursor `c - k`.
pub proof fn lemma_previous_times(c: nat, k: nat)
    requires
        k <= c,
    ensures
        previous_times(c, k) == c - k,
    decreases k,
{
    if k > 0 {
        lemma_previous_times(c, (k - 1) as nat);
    }
}

/// Stepping forward `k` times from the empty board shows the same board as
/// jumping to the end and then stepping back `N - k` times, for every `k` from
/// 0 to the number of moves `N`, whatever the looping setting.
pub proof fn lemma_forward_matches_back_from_end(
    ms: Seq<MoveSpec>,
    size: nat,
    looping: bool,
    k: nat,
)
    requires
        k <= ms.len(),
    ensures
        replay(ms, next_times(0, ms.len(), looping, k), size) == replay(
            ms,
            previous_times(ms.len(), (ms.len() - k) as nat),
            size,
        ),
{
    lemma_next_times_from_start(ms.len(), looping, k);
    lemma_previous_times(ms.len(), (ms.len() - k) as nat);
}

/// A step back undoes a step forward taken from any cursor past the start and
/// before the end: the cursor, and so the board, are as they were.
pub proof fn lemma_previous_undoes_next(ms: Seq<MoveSpec>, size: nat, looping: bool, c: nat)
    requires
        0 < c < ms.len(),
    ensures
        previous_cursor(next_cursor(c, ms.len(), looping)) == c,
        replay(ms, previous_cursor(next_cursor(c, ms.len(), looping)), size) == replay(ms, c, size),
{
}

/// The side length of a board whose record gives none, or none that parses.
pub const DEFAULT_BOARD_SIZE: u8 = 19;

/// The board size that a record's properties give: the first value of `SZ`
/// read as a number up to 255, or the default size.
pub open spec fn size_from(props: Map<Seq<char>, Seq<Seq<char>>>) -> nat {
    let key = seq!['S', 'Z'];
    if props.contains_key(key) && props[key].len() > 0 && parsed_below(
        props[key][0],
        u8::MAX as nat,
    ) is Some {
        parsed_below(props[key][0], u8::MAX as nat)->Some_0
    } else {
        DEFAULT_BOARD_SIZE as nat
    }
}

/// The board size given by a record's `SZ` property, or the default size.
pub fn board_size_of(properties: &StringHashMap<Vec<String>>) -> (r: u8)
    ensures
        r == size_from(properties_view(properties@)),
{
    proof {
        reveal_strlit("SZ");
    }
    let ghost key = seq!['S', 'Z'];
    assert("SZ"@ =~= key);
    match properties.get("SZ") {
        Some(values) => {
            assert(properties_view(properties@).contains_key(key));
            if values.len() > 0 {
                match parse_u8(values[0].as_str()) {
                    Some(n) => n,
                    None => DEFAULT_BOARD_SIZE,
                }
            } else {
                DEFAULT_BOARD_SIZE
            }
        },
        None => {
            assert(!properties_view(properties@).contains_key(key));
            DEFAULT_BOARD_SIZE
        },
    }
}

/// Whether every move lies on a board of side `size`.
pub fn moves_fit_board(moves: &Vec<Move>, size: u8) -> (r: bool)
    ensures
        r == moves_fit(moves_view(moves@), size as nat),
{
    let mut i: usize = 0;
    while i < moves.len()
        invariant
            i <= moves.len(),
            moves_fit(moves_view(moves@.subrange(0, i as int)), size as nat),
        decreases moves.len() - i,
    {
        let ghost done = moves_view(moves@.subrange(0, i as int));
        assert(moves_view(moves@)[i as int] == move_spec(moves@[i as int]));
        match moves[i].position {
            Some(pos) => {
                if pos.0 >= size || pos.1 >= size {
                    assert(!moves_fit(moves_view(moves@), size as nat));
                    return false;
                }
            },
            None => {},
        }
        assert(moves_view(moves@.subrange(0, i + 1)) =~= done.push(move_spec(moves@[i as int])));
        i = i + 1;
    }
    assert(moves@.subrange(0, i as int) =~= moves@);
    true
}

/// The replay engine: a board, the moves, and a cursor into them.
pub struct GameState {
    pub board: Board,
    pub moves: Vec<Move>,
    /// How many moves stand on the board: 0 is the empty board.
    pub current_move: usize,
    /// The record's root properties.
    pub properties: StringHashMap<Vec<String>>,
    /// Whether `next` at the end wraps round to the start.
    pub looping_enabled: bool,
}

impl GameState {
    /// The colours and positions of the moves.
    pub open spec fn move_list(&self) -> Seq<MoveSpec> {
        moves_view(self.moves@)
    }

    /// The board is well formed, every move lies on it, the cursor is within
    /// the moves, and the board is exactly the first `current_move` moves
    /// replayed onto an empty board.
    pub open spec fn inv(&self) -> bool {
        &&& self.board.wf()
        &&& moves_fit(self.move_list(), self.board.size as nat)
        &&& self.current_move <= self.moves.len()
        &&& self.board@ == replay(self.move_list(), self.current_move as nat, self.board.size as nat)
    }

    /// The board after the first `k` moves, built from an empty board.
    fn replay_prefix(size: u8, moves: &Vec<Move>, k: usize) -> (b: Board)
        requires
            k <= moves.len(),
            moves_fit(moves_view(moves@), size as nat),
        ensures
            b.wf(),
            b.size == size,
            b@ == replay(moves_view(moves@), k as nat, size as nat),
    {
        let mut b = Board::new(size);
        let mut i: usize = 0;
        while i < k
            invariant
                i <= k <= moves.len(),
                moves_fit(moves_view(moves@), size as nat),
                b.wf(),
                b.size == size,
                b@ == replay(moves_view(moves@), i as nat, size as nat),
            decreases k - i,
        {
            assert(moves_view(moves@)[i as int] == move_spec(moves@[i as int]));
            apply(&mut b, &moves[i]);
            i = i + 1;
        }
        b
    }

    /// An engine at the start of `moves` on an empty board of side `board_size`,
    /// with looping on and no properties.
    pub fn new(board_size: u8, moves: Vec<Move>) -> (g: GameState)
        requires
            moves_fit(moves_view(moves@), board_size as nat),
        ensures
            g.inv(),
            g.board.size == board_size,
            g.moves@ == moves@,
            g.current_move == 0,
            g.looping_enabled,
            g.properties@ == Map::<Seq<char>, Vec<String>>::empty(),
    {
        GameState {
            board: Board::new(board_size),
            moves,
            current_move: 0,
            properties: StringHashMap::new(),
            looping_enabled: true,
        }
    }

    /// As `new`, with the record's properties.
    pub fn with_properties(
        board_size: u8,
        moves: Vec<Move>,
        properties: StringHashMap<Vec<String>>,
    ) -> (g: GameState)
        requires
            moves_fit(moves_view(moves@), board_size as nat),
        ensures
            g.inv(),
            g.board.size == board_size,
            g.moves@ == moves@,
            g.current_move == 0,
            g.looping_enabled,
            g.properties@ == properties@,
    {
        GameState {
            board: Board::new(board_size),
            moves,
            current_move: 0,
            properties,
            looping_enabled: true,
        }
    }

    /// An engine for a parsed record: the board size comes from its `SZ`
    /// property (the default size without one); none when a move lies off
    /// that board.
    pub fn from_record(tree: GameTree) -> (r: Option<GameState>)
        ensures
            ({
                let size = size_from(properties_view(tree.properties@));
                match r {
                    Some(g) => {
                        &&& moves_fit(moves_view(tree.moves@), size)
                        &&& g.inv()
                        &&& g.board.size == size
                        &&& g.moves@ == tree.moves@
                        &&& g.properties@ == tree.properties@
                        &&& g.current_move == 0
                        &&& g.looping_enabled
                    },
                    None => !moves_fit(moves_view(tree.moves@), size),
                }
            }),
    {
        let size = board_size_of(&tree.properties);
        if !moves_fit_board(&tree.moves, size) {
            return None;
        }
        Some(GameState::with_properties(size, tree.moves, tree.properties))
    }

    /// The first value of property `key`, if it has one.
    pub fn get_property(&self, key: &str) -> (r: Option<&str>)
        ensures
            match r {
                Some(v) => {
                    &&& self.properties@.contains_key(key@)
                    &&& self.properties@[key@]@.len() > 0
                    &&& v@ == self.properties@[key@]@[0]@
                },
                None => !self.properties@.contains_key(key@) || self.properties@[key@]@.len() == 0,
            },
    {
        match self.properties.get(key) {
            Some(values) => {
                if values.len() > 0 {
                    Some(values[0].as_str())
                } else {
                    None
                }
            },
            None => None,
        }
    }

    /// Whether `next` at the end wraps round to the start.
    pub fn is_looping_enabled(&self) -> (r: bool)
        ensures
            r == self.looping_enabled,
    {
        self.looping_enabled
    }

    /// Turns looping on or off; nothing else changes.
    pub fn set_looping(&mut self, enabled: bool)
        ensures
            final(self).looping_enabled == enabled,
            final(self).board == old(self).board,
            final(self).moves == old(self).moves,
            final(self).current_move == old(self).current_move,
            final(self).properties == old(self).properties,
    {
        self.looping_enabled = enabled;
    }

    /// Turns looping over; nothing else changes.
    pub fn toggle_looping(&mut self)
        ensures
            final(self).looping_enabled == !old(self).looping_enabled,
            final(self).board == old(self).board,
            final(self).moves == old(self).moves,
            final(self).current_move == old(self).current_move,
            final(self).properties == old(self).properties,
    {
        self.looping_enabled = !self.looping_enabled;
    }

    /// Steps forward one move. At the end it wraps round to the start when
    /// looping is on, and otherwise stays and returns `false`.
    pub fn next(&mut self) -> (r: bool)
        requires
            old(self).inv(),
        ensures
            final(self).inv(),
            final(self).moves == old(self).moves,
            final(self).board.size == old(self).board.size,
            final(self).properties == old(self).properties,
            final(self).looping_enabled == old(self).looping_enabled,
            final(self).current_move == next_cursor(
                old(self).current_move as nat,
                old(self).moves.len() as nat,
                old(self).looping_enabled,
            ),
            r == (old(self).current_move < old(self).moves.len() || old(self).looping_enabled),
    {
        if self.current_move >= self.moves.len() {
            if self.looping_enabled {
                self.jump_to_start();
                return true;
            } else {
                return false;
            }
        }
        let i = self.current_move;
        assert(self.move_list()[i as int] == move_spec(self.moves@[i as int]));
        apply(&mut self.board, &self.moves[i]);
        self.current_move = i + 1;
        true
    }

    /// Steps back one move, rebuilding the board from an empty one; at the
    /// start it returns `false` and changes nothing.
    pub fn previous(&mut self) -> (r: bool)
        requires
            old(self).inv(),
        ensures
            final(self).inv(),
            final(self).moves == old(self).moves,
            final(self).board.size == old(self).board.size,
            final(self).properties == old(self).properties,
            final(self).looping_enabled == old(self).looping_enabled,
            final(self).current_move == previous_cursor(old(self).current_move as nat),
            r == (old(self).current_move > 0),
    {
        if self.current_move == 0 {
            return false;
        }
        self.current_move = self.current_move - 1;
        self.board = Self::replay_prefix(self.board.size, &self.moves, self.current_move);
        true
    }

    /// Goes back to the empty board.
    pub fn jump_to_start(&mut self)
        requires
            old(self).inv(),
        ensures
            final(self).inv(),
            final(self).moves == old(self).moves,
            final(self).board.size == old(self).board.size,
            final(self).properties == old(self).properties,
            final(self).looping_enabled == old(self).looping_enabled,
            final(self).current_move == 0,
    {
        self.current_move = 0;
        self.board = Board::new(self.board.size);
    }

    /// Goes to the end: every move replayed onto an empty board, whatever the
    /// looping setting.
    pub fn jump_to_end(&mut self)
        requires
            old(self).inv(),
        ensures
            final(self).inv(),
            final(self).moves == old(self).moves,
            final(self).board.size == old(self).board.size,
            final(self).properties == old(self).properties,
            final(self).looping_enabled == old(self).looping_enabled,
            final(self).current_move == final(self).moves.len(),
    {
        self.board = Self::replay_prefix(self.board.size, &self.moves, self.moves.len());
        self.current_move = self.moves.len();
    }
}

/// Plays move `m` on `board`: a stone at its column and row, nothing for a pass.
fn apply(board: &mut Board, m: &Move)
    requires
        old(board).wf(),
        match m.position {
            Some(pos) => pos.0 < old(board).size && pos.1 < old(board).size,
            None => true,
        },
    ensures
        final(board).wf(),
        final(board).size == old(board).size,
        final(board)@ == apply_move(old(board)@, move_spec(*m)),
{
    if let Some(pos) = m.position {
        board.set(pos.1, pos.0, m.color);
    }
}

} // verus!
