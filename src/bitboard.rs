//! One 3x3 board packed into a `u32`: bits 0-8 hold the cells of X, bits 9-17
//! those of O, bits 18-26 the empty cells, and bits 27-31 the outcome code.

use vstd::prelude::*;
use vstd::string::StringExecFns;
use crate::board::{Slot, State};

verus! {

/// Whether bit `i` of `b` is set.
#[verifier::inline]
pub open spec fn bit(b: u32, i: u32) -> bool {
    b & (1u32 << i) != 0
}

/// The packing is sound: no cell is marked for two contents at once, and the
/// outcome field holds one of the four codes.
#[verifier::inline]
pub open spec fn packed_ok(b: u32) -> bool {
    &&& (b & (b >> 9u32) & 0x1FFu32) == 0
    &&& (b & (b >> 18u32) & 0x1FFu32) == 0
    &&& ((b >> 9u32) & (b >> 18u32) & 0x1FFu32) == 0
    &&& (b >> 27u32) < 4
}

/// What cell `i` holds in the packing `b`; a cell with none of its three bits
/// set is disabled.
pub open spec fn cell_at(b: u32, i: u32) -> Slot {
    if bit(b, i) {
        Slot::X
    } else if bit(b, (i + 9) as u32) {
        Slot::O
    } else if bit(b, (i + 18) as u32) {
        Slot::Empty
    } else {
        Slot::Disabled
    }
}

/// None of the three bits of cell `j` is set.
pub open spec fn cell_clear(b: u32, j: u32) -> bool {
    &&& !bit(b, j)
    &&& !bit(b, (j + 9) as u32)
    &&& !bit(b, (j + 18) as u32)
}

/// The eight winning lines, as cell indices.
pub open spec fn line(k: int) -> (int, int, int) {
    if k == 0 {
        (0, 1, 2)
    } else if k == 1 {
        (3, 4, 5)
    } else if k == 2 {
        (6, 7, 8)
    } else if k == 3 {
        (0, 3, 6)
    } else if k == 4 {
        (1, 4, 7)
    } else if k == 5 {
        (2, 5, 8)
    } else if k == 6 {
        (0, 4, 8)
    } else {
        (2, 4, 6)
    }
}

/// `side` holds all three cells of line `k`.
pub open spec fn line_full(cells: Seq<Slot>, k: int, side: Slot) -> bool {
    let (a, b, c) = line(k);
    cells[a] == side && cells[b] == side && cells[c] == side
}

pub open spec fn wins(cells: Seq<Slot>, side: Slot) -> bool {
    exists|k: int| 0 <= k < 8 && #[trigger] line_full(cells, k, side)
}

/// Line `k` holds nothing but `side` and empty cells, so `side` can still fill it.
pub open spec fn line_open(cells: Seq<Slot>, k: int, side: Slot) -> bool {
    let (a, b, c) = line(k);
    &&& (cells[a] == side || cells[a] == Slot::Empty)
    &&& (cells[b] == side || cells[b] == Slot::Empty)
    &&& (cells[c] == side || cells[c] == Slot::Empty)
}

pub open spec fn can_win(cells: Seq<Slot>, side: Slot) -> bool {
    exists|k: int| 0 <= k < 8 && #[trigger] line_open(cells, k, side)
}

/// `side` holds two cells of line `k` and the third is empty.
pub open spec fn line_one_away(cells: Seq<Slot>, k: int, side: Slot) -> bool {
    let (a, b, c) = line(k);
    ||| (cells[a] == side && cells[b] == side && cells[c] == Slot::Empty)
    ||| (cells[a] == side && cells[b] == Slot::Empty && cells[c] == side)
    ||| (cells[a] == Slot::Empty && cells[b] == side && cells[c] == side)
}

/// How many of the first `n` lines are one move away from a win for `side`.
pub open spec fn one_aways_in(cells: Seq<Slot>, side: Slot, n: int) -> int
    decreases n,
{
    if n <= 0 {
        0
    } else {
        one_aways_in(cells, side, n - 1) + if line_one_away(cells, n - 1, side) {
            1int
        } else {
            0int
        }
    }
}

pub open spec fn one_aways(cells: Seq<Slot>, side: Slot) -> int {
    one_aways_in(cells, side, 8)
}

pub open spec fn owns(cells: Seq<Slot>, i: int, side: Slot) -> int {
    if cells[i] == side {
        1
    } else {
        0
    }
}

/// How many of the four corners `side` holds.
pub open spec fn corner_count(cells: Seq<Slot>, side: Slot) -> int {
    owns(cells, 0, side) + owns(cells, 2, side) + owns(cells, 6, side) + owns(cells, 8, side)
}

/// The bit that records `s` in cell `i`.
pub open spec fn slot_bits(s: Slot, i: u32) -> u32 {
    match s {
        Slot::X => 1u32 << i,
        Slot::O => 1u32 << ((i + 9) as u32),
        Slot::Empty => 1u32 << ((i + 18) as u32),
        Slot::Disabled => 0,
    }
}

/// The packing of the first `n` cells of `cells`, with the outcome undecided.
pub open spec fn encode_upto(cells: Seq<Slot>, n: nat) -> u32
    decreases n,
{
    if n == 0 {
        0
    } else {
        encode_upto(cells, (n - 1) as nat) | slot_bits(cells[n - 1], (n - 1) as u32)
    }
}

pub open spec fn encode(cells: Seq<Slot>) -> u32 {
    encode_upto(cells, 9)
}

proof fn lemma_or_bit(b: u32, p: u32, q: u32)
    by (bit_vector)
    requires
        p < 32,
        q < 32,
    ensures
        bit(b | (1u32 << p), q) == (bit(b, q) || p == q),
{
}

proof fn lemma_place(b: u32, i: u32, off: u32)
    by (bit_vector)
    requires
        packed_ok(b),
        b >> 27u32 == 0,
        i < 9,
        off == 0 || off == 9 || off == 18,
        !bit(b, i),
        !bit(b, (i + 9) as u32),
        !bit(b, (i + 18) as u32),
    ensures
        packed_ok(b | (1u32 << ((i + off) as u32))),
        (b | (1u32 << ((i + off) as u32))) >> 27u32 == 0,
{
}

proof fn lemma_cell_bits(b: u32, i: u32)
    by (bit_vector)
    requires
        packed_ok(b),
        i < 9,
    ensures
        !(bit(b, i) && bit(b, (i + 9) as u32)),
        !(bit(b, i) && bit(b, (i + 18) as u32)),
        !(bit(b, (i + 9) as u32) && bit(b, (i + 18) as u32)),
{
}

/// On a sound packing each content of a cell is read from its own bit alone.
pub(crate) proof fn lemma_cell_iff(b: u32, i: u32)
    requires
        packed_ok(b),
        i < 9,
    ensures
        (cell_at(b, i) == Slot::X) == bit(b, i),
        (cell_at(b, i) == Slot::O) == bit(b, (i + 9) as u32),
        (cell_at(b, i) == Slot::Empty) == bit(b, (i + 18) as u32),
{
    lemma_cell_bits(b, i);
}

/// Facts that hold of the packing of the first `n` cells.
proof fn lemma_encode_upto(cells: Seq<Slot>, n: nat)
    requires
        cells.len() == 9,
        n <= 9,
    ensures
        packed_ok(encode_upto(cells, n)),
        encode_upto(cells, n) >> 27u32 == 0,
        forall|j: u32| j < n ==> cell_at(encode_upto(cells, n), j) == cells[j as int],
        forall|j: u32| n <= j < 9 ==> #[trigger] cell_clear(encode_upto(cells, n), j),
    decreases n,
{
    if n == 0 {
        assert forall|j: u32| j < 9 implies #[trigger] cell_clear(0u32, j) by {
            let j9 = (j + 9) as u32;
            let j18 = (j + 18) as u32;
            assert(!bit(0u32, j) && !bit(0u32, j9) && !bit(0u32, j18)) by (bit_vector)
                requires
                    j < 9,
                    j9 == j + 9,
                    j18 == j + 18,
            ;
        }
        assert(packed_ok(0u32) && 0u32 >> 27u32 == 0) by (bit_vector);
    } else {
        let m = (n - 1) as nat;
        lemma_encode_upto(cells, m);
        let b = encode_upto(cells, m);
        let i = m as u32;
        let s = cells[m as int];
        let b2 = encode_upto(cells, n);
        assert(cell_clear(b, i));
        if s == Slot::Disabled {
            assert(b2 == b | 0u32);
            assert(b | 0u32 == b) by (bit_vector);
        } else {
            let off: u32 = if s == Slot::X {
                0
            } else if s == Slot::O {
                9
            } else {
                18
            };
            let p = (i + off) as u32;
            assert(b2 == b | (1u32 << p));
            lemma_place(b, i, off);
            assert forall|q: u32| q < 32 implies bit(b2, q) == (bit(b, q) || p == q) by {
                lemma_or_bit(b, p, q);
            }
        }
        assert(cell_at(b2, i) == s);
        assert forall|j: u32| j < n implies cell_at(b2, j) == cells[j as int] by {
            if j < m {
                assert(cell_at(b, j) == cells[j as int]);
            }
        }
        assert forall|j: u32| n <= j < 9 implies #[trigger] cell_clear(b2, j) by {
            assert(cell_clear(b, j));
        }
    }
}

/// Decoding the packing of nine cells gives those cells back.
pub proof fn lemma_decode_encode(cells: Seq<Slot>)
    requires
        cells.len() == 9,
    ensures
        BitBoard(encode(cells)).wf(),
        BitBoard(encode(cells)).cells() == cells,
        BitBoard(encode(cells)).status() == State::Undecided,
{
    lemma_encode_upto(cells, 9);
    let b = encode(cells);
    assert(BitBoard(b).cells() =~= cells);
}

proof fn lemma_set_status(b: u32, c: u32)
    by (bit_vector)
    requires
        c < 4,
    ensures
        ((b & !0xF800_0000u32) | (c << 27u32)) >> 27u32 == c,
        ((b & !0xF800_0000u32) | (c << 27u32)) & 0x07FF_FFFFu32 == b & 0x07FF_FFFFu32,
        packed_ok(b) ==> packed_ok((b & !0xF800_0000u32) | (c << 27u32)),
{
}

proof fn lemma_low_bit(a: u32, b: u32, i: u32)
    by (bit_vector)
    requires
        a & 0x07FF_FFFFu32 == b & 0x07FF_FFFFu32,
        i < 27,
    ensures
        bit(a, i) == bit(b, i),
{
}

/// Two packings that agree below the outcome field hold the same cells.
proof fn lemma_same_cells(a: u32, b: u32)
    requires
        a & 0x07FF_FFFFu32 == b & 0x07FF_FFFFu32,
    ensures
        BitBoard(a).cells() == BitBoard(b).cells(),
{
    assert forall|i: int| 0 <= i < 9 implies #[trigger] cell_at(a, i as u32) == cell_at(b, i as u32) by {
        lemma_low_bit(a, b, i as u32);
        lemma_low_bit(a, b, (i + 9) as u32);
        lemma_low_bit(a, b, (i + 18) as u32);
    }
    assert(BitBoard(a).cells() =~= BitBoard(b).cells());
}

/// The packing with the cells of X and O swapped, all else kept.
pub open spec fn swap_sides(b: u32) -> u32 {
    ((b & !0x3FFFFu32) | ((b & 0x1FFu32) << 9u32)) | ((b & (0x1FFu32 << 9u32)) >> 9u32)
}

proof fn lemma_swap_bits(b: u32, i: u32)
    by (bit_vector)
    requires
        i < 9,
    ensures
        bit(swap_sides(b), i) == bit(b, (i + 9) as u32),
        bit(swap_sides(b), (i + 9) as u32) == bit(b, i),
        bit(swap_sides(b), (i + 18) as u32) == bit(b, (i + 18) as u32),
        swap_sides(b) >> 27u32 == b >> 27u32,
        packed_ok(b) ==> packed_ok(swap_sides(b)),
{
}

proof fn lemma_mask3(x: u32, p: u32, q: u32, r: u32)
    by (bit_vector)
    requires
        p < 32,
        q < 32,
        r < 32,
    ensures
        (x & ((1u32 << p) | (1u32 << q) | (1u32 << r))) == ((1u32 << p) | (1u32 << q) | (1u32
            << r)) <==> (bit(x, p) && bit(x, q) && bit(x, r)),
{
}

/// The cells of line `k`, for a loop over the lines.
pub(crate) fn line_of(k: u32) -> (r: (u32, u32, u32))
    requires
        k < 8,
    ensures
        (r.0 as int, r.1 as int, r.2 as int) == line(k as int),
        r.0 < 9 && r.1 < 9 && r.2 < 9,
{
    match k {
        0 => (0, 1, 2),
        1 => (3, 4, 5),
        2 => (6, 7, 8),
        3 => (0, 3, 6),
        4 => (1, 4, 7),
        5 => (2, 5, 8),
        6 => (0, 4, 8),
        _ => (2, 4, 6),
    }
}

/// Whether bits `p`, `q` and `r` all stand in `x`.
pub(crate) fn holds_mask(x: u32, p: u32, q: u32, r: u32) -> (res: bool)
    requires
        p < 32,
        q < 32,
        r < 32,
    ensures
        res == (bit(x, p) && bit(x, q) && bit(x, r)),
{
    let m = (1u32 << p) | (1u32 << q) | (1u32 << r);
    proof {
        lemma_mask3(x, p, q, r);
    }
    x & m == m
}

/// Outcome of a board with these cells: a full line for X wins, then one for O
/// loses, and a board where neither side can fill any line is tied.
pub open spec fn outcome(cells: Seq<Slot>) -> State {
    if wins(cells, Slot::X) {
        State::Won
    } else if wins(cells, Slot::O) {
        State::Lost
    } else if !(can_win(cells, Slot::X) || can_win(cells, Slot::O)) {
        State::Tied
    } else {
        State::Undecided
    }
}

/// The packing after `side` (at offset `off`) takes the empty cell `i`.
#[verifier::inline]
pub open spec fn play_bits(b: u32, i: u32, off: u32) -> u32 {
    (b | (1u32 << ((i + off) as u32))) & !(1u32 << ((i + 18) as u32))
}

proof fn lemma_play(b: u32, i: u32, off: u32, q: u32)
    by (bit_vector)
    requires
        packed_ok(b),
        i < 9,
        off == 0 || off == 9,
        bit(b, (i + 18) as u32),
        q < 32,
    ensures
        packed_ok(play_bits(b, i, off)),
        play_bits(b, i, off) >> 27u32 == b >> 27u32,
        bit(play_bits(b, i, off), q) == (if q == i + off {
            true
        } else if q == i + 18 {
            false
        } else {
            bit(b, q)
        }),
{
}

proof fn lemma_open_bits(b: u32, i: u32)
    by (bit_vector)
    requires
        i < 9,
    ensures
        bit((b | (b >> 18u32)) & 0x1FFu32, i) == (bit(b, i) || bit(b, (i + 18) as u32)),
        bit(((b >> 9u32) | (b >> 18u32)) & 0x1FFu32, i) == (bit(b, (i + 9) as u32) || bit(
            b,
            (i + 18) as u32,
        )),
{
}

/// The cells that `side` holds or that are empty, as a 9-bit set.
pub(crate) fn open_cells(b: BitBoard, side: Slot) -> (r: u32)
    requires
        b.wf(),
        side.is_side(),
    ensures
        forall|i: u32| i < 9 ==> (bit(r, i) <==> (#[trigger] b.cell(i as int) == side || b.cell(i as int) == Slot::Empty)),
{
    let r = if side == Slot::X {
        (b.0 | (b.0 >> 18)) & 0x1FF
    } else {
        ((b.0 >> 9) | (b.0 >> 18)) & 0x1FF
    };
    proof {
        assert forall|i: u32| i < 9 implies (bit(r, i) <==> (#[trigger] b.cell(i as int) == side || b.cell(i as int) == Slot::Empty)) by {
            lemma_open_bits(b.0, i);
            lemma_cell_iff(b.0, i);
        }
    }
    r
}

proof fn lemma_bits_eq(a: u32, b: u32)
    by (bit_vector)
    requires
        bit(a, 0u32) == bit(b, 0u32),
        bit(a, 1u32) == bit(b, 1u32),
        bit(a, 2u32) == bit(b, 2u32),
        bit(a, 3u32) == bit(b, 3u32),
        bit(a, 4u32) == bit(b, 4u32),
        bit(a, 5u32) == bit(b, 5u32),
        bit(a, 6u32) == bit(b, 6u32),
        bit(a, 7u32) == bit(b, 7u32),
        bit(a, 8u32) == bit(b, 8u32),
        bit(a, 9u32) == bit(b, 9u32),
        bit(a, 10u32) == bit(b, 10u32),
        bit(a, 11u32) == bit(b, 11u32),
        bit(a, 12u32) == bit(b, 12u32),
        bit(a, 13u32) == bit(b, 13u32),
        bit(a, 14u32) == bit(b, 14u32),
        bit(a, 15u32) == bit(b, 15u32),
        bit(a, 16u32) == bit(b, 16u32),
        bit(a, 17u32) == bit(b, 17u32),
        bit(a, 18u32) == bit(b, 18u32),
        bit(a, 19u32) == bit(b, 19u32),
        bit(a, 20u32) == bit(b, 20u32),
        bit(a, 21u32) == bit(b, 21u32),
        bit(a, 22u32) == bit(b, 22u32),
        bit(a, 23u32) == bit(b, 23u32),
        bit(a, 24u32) == bit(b, 24u32),
        bit(a, 25u32) == bit(b, 25u32),
        bit(a, 26u32) == bit(b, 26u32),
        a >> 27u32 == b >> 27u32,
    ensures
        a == b,
{
}

proof fn lemma_cell_bits_eq(a: BitBoard, b: BitBoard, i: u32)
    requires
        a.wf(),
        b.wf(),
        a.cells() == b.cells(),
        i < 9,
    ensures
        bit(a.0, i) == bit(b.0, i),
        bit(a.0, (i + 9) as u32) == bit(b.0, (i + 9) as u32),
        bit(a.0, (i + 18) as u32) == bit(b.0, (i + 18) as u32),
{
    lemma_cell_iff(a.0, i);
    lemma_cell_iff(b.0, i);
    assert(a.cells()[i as int] == a.cell(i as int));
    assert(b.cells()[i as int] == b.cell(i as int));
    assert(a.cells()[i as int] == b.cells()[i as int]);
    assert(cell_at(a.0, i) == cell_at(b.0, i));
    if bit(a.0, i) {
        assert(cell_at(b.0, i) == Slot::X);
    }
    if bit(b.0, i) {
        assert(cell_at(a.0, i) == Slot::X);
    }
    if bit(a.0, (i + 18) as u32) {
        assert(cell_at(b.0, i) == Slot::Empty);
    }
    if bit(b.0, (i + 18) as u32) {
        assert(cell_at(a.0, i) == Slot::Empty);
    }
}

/// A sound packing is fixed by its cells and its outcome.
pub proof fn lemma_same_board(a: BitBoard, b: BitBoard)
    requires
        a.wf(),
        b.wf(),
        a.cells() == b.cells(),
        a.status() == b.status(),
    ensures
        a == b,
{
    lemma_cell_bits_eq(a, b, 0);
    lemma_cell_bits_eq(a, b, 1);
    lemma_cell_bits_eq(a, b, 2);
    lemma_cell_bits_eq(a, b, 3);
    lemma_cell_bits_eq(a, b, 4);
    lemma_cell_bits_eq(a, b, 5);
    lemma_cell_bits_eq(a, b, 6);
    lemma_cell_bits_eq(a, b, 7);
    lemma_cell_bits_eq(a, b, 8);
    assert(a.0 >> 27u32 == b.0 >> 27u32);
    lemma_bits_eq(a.0, b.0);
}

/// The text of the first `n` cells of a 3x3 grid: each cell's character,
/// then a newline after the last cell of a row and a space after the others.
pub open spec fn grid_prefix(cells: Seq<Slot>, n: int) -> Seq<char>
    decreases n,
{
    if n <= 0 {
        Seq::empty()
    } else {
        grid_prefix(cells, n - 1) + seq![slot_char(cells[n - 1])] + if (n - 1) % 3 == 2 {
            seq!['\n']
        } else {
            seq![' ']
        }
    }
}

pub open spec fn grid_text(cells: Seq<Slot>) -> Seq<char> {
    grid_prefix(cells, 9)
}

/// The character that shows `s`.
pub open spec fn slot_char(s: Slot) -> char {
    match s {
        Slot::Empty => ' ',
        Slot::X => 'X',
        Slot::O => 'O',
        Slot::Disabled => '_',
    }
}

fn slot_str(s: Slot) -> (r: &'static str)
    ensures
        r@ == seq![slot_char(s)],
{
    match s {
        Slot::Empty => {
            proof {
                reveal_strlit(" ");
            }
            " "
        },
        Slot::X => {
            proof {
                reveal_strlit("X");
            }
            "X"
        },
        Slot::O => {
            proof {
                reveal_strlit("O");
            }
            "O"
        },
        Slot::Disabled => {
            proof {
                reveal_strlit("_");
            }
            "_"
        },
    }
}

/// One board, packed into a `u32` (see the module documentation).
#[derive(Debug, Clone, Copy, PartialEq, Eq, Hash, Structural)]
pub struct BitBoard(pub u32);

impl BitBoard {
    pub open spec fn wf(self) -> bool {
        packed_ok(self.0)
    }

    pub open spec fn cell(self, i: int) -> Slot {
        cell_at(self.0, i as u32)
    }

    pub open spec fn cells(self) -> Seq<Slot> {
        Seq::new(9, |i: int| self.cell(i))
    }

    pub open spec fn status(self) -> State {
        State::from_code(self.0 >> 27u32)
    }

    /// An empty board with an undecided outcome.
    pub fn new() -> (r: BitBoard)
        ensures
            r.wf(),
            r.cells() == Seq::new(9, |i: int| Slot::Empty),
            r.status() == State::Undecided,
    {
        let e = Slot::Empty;
        let arr = [e, e, e, e, e, e, e, e, e];
        assert(arr@ =~= Seq::new(9, |i: int| Slot::Empty));
        let r = BitBoard::new_with(arr);
        r
    }

    /// The board holding `brd`, with an undecided outcome.
    pub fn new_with(brd: [Slot; 9]) -> (r: BitBoard)
        ensures
            r.0 == encode(brd@),
            r.wf(),
            r.cells() == brd@,
            r.status() == State::Undecided,
    {
        let mut bits: u32 = 0;
        let mut idx: usize = 0;
        while idx < 9
            invariant
                idx <= 9,
                bits == encode_upto(brd@, idx as nat),
            decreases 9 - idx,
        {
            let i = idx as u32;
            bits = bits | match brd[idx] {
                Slot::X => 1u32 << i,
                Slot::O => 1u32 << (9 + i),
                Slot::Empty => 1u32 << (18 + i),
                Slot::Disabled => 0,
            };
            idx = idx + 1;
        }
        proof {
            lemma_decode_encode(brd@);
        }
        BitBoard(bits)
    }

    /// The nine cells, in index order.
    pub fn to_arr(self) -> (r: [Slot; 9])
        ensures
            r@ == self.cells(),
    {
        let mut buf = [Slot::Disabled;9];
        let mut idx: usize = 0;
        while idx < 9
            invariant
                idx <= 9,
                forall|j: int| 0 <= j < idx ==> buf@[j] == self.cell(j),
            decreases 9 - idx,
        {
            let i = idx as u32;
            if self.0 & (1u32 << i) != 0 {
                buf[idx] = Slot::X;
            } else if self.0 & (1u32 << (9 + i)) != 0 {
                buf[idx] = Slot::O;
            } else if self.0 & (1u32 << (18 + i)) != 0 {
                buf[idx] = Slot::Empty;
            } else {
                buf[idx] = Slot::Disabled;
            }
            idx = idx + 1;
        }
        assert(buf@ =~= self.cells());
        buf
    }
    /// The recorded outcome.
    pub fn state(self) -> (r: State)
        requires
            self.wf(),
        ensures
            r == self.status(),
    {
        State::from_u32(self.0 >> 27)
    }

    /// Records `st` as the outcome; the cells stay as they are.
    pub fn set_state(&mut self, st: State)
        ensures
            final(self).cells() == old(self).cells(),
            final(self).status() == st,
            final(self).0 & 0x07FF_FFFFu32 == old(self).0 & 0x07FF_FFFFu32,
            old(self).wf() ==> final(self).wf(),
    {
        let old_bits = self.0;
        let c = st.to_u32();
        self.0 = (self.0 & !0xF800_0000u32) | (c << 27);
        proof {
            lemma_set_status(old_bits, c);
            lemma_same_cells(self.0, old_bits);
        }
    }

    /// Swaps the two sides: the cells of X become those of O and the other way
    /// round, and the outcome is seen from the other side.
    pub fn flip(&mut self)
        requires
            old(self).wf(),
        ensures
            final(self).wf(),
            final(self).cells() == old(self).cells().map_values(|s: Slot| s.opposite()),
            final(self).status() == old(self).status().opposite(),
    {
        let old_bits = self.0;
        let st = self.state();
        let xs = self.0 & 0x1FFu32;
        let os = self.0 & (0x1FFu32 << 9);
        self.0 = self.0 & !0x3FFFFu32;
        self.0 = self.0 | (xs << 9);
        self.0 = self.0 | (os >> 9);
        let swapped = self.0;
        proof {
            assert(swapped == swap_sides(old_bits));
            lemma_swap_bits(old_bits, 0);
        }
        self.set_state(st.flip());
        proof {
            assert forall|i: int| 0 <= i < 9 implies #[trigger] cell_at(swapped, i as u32)
                == cell_at(old_bits, i as u32).opposite() by {
                lemma_swap_bits(old_bits, i as u32);
                lemma_cell_bits(old_bits, i as u32);
            }
            assert(BitBoard(swapped).cells() =~= BitBoard(old_bits).cells().map_values(
                |s: Slot| s.opposite(),
            ));
        }
    }

    /// How many corners `side` holds.
    pub fn corners(self, side: Slot) -> (r: i32)
        requires
            self.wf(),
            side.is_side(),
        ensures
            r == corner_count(self.cells(), side),
            0 <= r <= 4,
    {
        let off: u32 = if side == Slot::X {
            0
        } else {
            9
        };
        proof {
            lemma_cell_iff(self.0, 0);
            lemma_cell_iff(self.0, 2);
            lemma_cell_iff(self.0, 6);
            lemma_cell_iff(self.0, 8);
        }
        let mut n: i32 = 0;
        if self.0 & (1u32 << off) != 0 {
            n = n + 1;
        }
        if self.0 & (1u32 << (2 + off)) != 0 {
            n = n + 1;
        }
        if self.0 & (1u32 << (6 + off)) != 0 {
            n = n + 1;
        }
        if self.0 & (1u32 << (8 + off)) != 0 {
            n = n + 1;
        }
        n
    }

    fn won_by(self, side: Slot) -> (r: bool)
        requires
            self.wf(),
            side.is_side(),
        ensures
            r == wins(self.cells(), side),
    {
        let off: u32 = if side == Slot::X {
            0
        } else {
            9
        };
        let mut k: u32 = 0;
        while k < 8
            invariant
                k <= 8,
                self.wf(),
                side == Slot::X ==> off == 0,
                side == Slot::O ==> off == 9,
                side.is_side(),
                forall|j: int| 0 <= j < k ==> !#[trigger] line_full(self.cells(), j, side),
            decreases 8 - k,
        {
            let (a, b, c) = line_of(k);
            proof {
                lemma_cell_iff(self.0, a);
                lemma_cell_iff(self.0, b);
                lemma_cell_iff(self.0, c);
            }
            if holds_mask(self.0, a + off, b + off, c + off) {
                assert(line_full(self.cells(), k as int, side));
                return true;
            }
            k = k + 1;
        }
        false
    }

    /// Whether X holds a whole line.
    pub fn won_by_x(self) -> (r: bool)
        requires
            self.wf(),
        ensures
            r == wins(self.cells(), Slot::X),
    {
        self.won_by(Slot::X)
    }

    /// Whether O holds a whole line.
    pub fn won_by_o(self) -> (r: bool)
        requires
            self.wf(),
        ensures
            r == wins(self.cells(), Slot::O),
    {
        self.won_by(Slot::O)
    }

    fn count_one_aways(self, side: Slot) -> (r: i32)
        requires
            self.wf(),
            side.is_side(),
        ensures
            r == one_aways(self.cells(), side),
            0 <= r <= 8,
    {
        let off: u32 = if side == Slot::X {
            0
        } else {
            9
        };
        let mut n: i32 = 0;
        let mut k: u32 = 0;
        while k < 8
            invariant
                k <= 8,
                self.wf(),
                side == Slot::X ==> off == 0,
                side == Slot::O ==> off == 9,
                side.is_side(),
                n == one_aways_in(self.cells(), side, k as int),
                0 <= n <= k,
            decreases 8 - k,
        {
            let (a, b, c) = line_of(k);
            proof {
                lemma_cell_iff(self.0, a);
                lemma_cell_iff(self.0, b);
                lemma_cell_iff(self.0, c);
            }
            if holds_mask(self.0, a + off, b + off, c + 18) || holds_mask(
                self.0,
                a + off,
                b + 18,
                c + off,
            ) || holds_mask(self.0, a + 18, b + off, c + off) {
                n = n + 1;
            }
            k = k + 1;
        }
        n
    }

    /// How many lines X can complete with one more move.
    pub fn one_aways_x(self) -> (r: i32)
        requires
            self.wf(),
        ensures
            r == one_aways(self.cells(), Slot::X),
            0 <= r <= 8,
    {
        self.count_one_aways(Slot::X)
    }

    /// How many lines O can complete with one more move.
    pub fn one_aways_o(self) -> (r: i32)
        requires
            self.wf(),
        ensures
            r == one_aways(self.cells(), Slot::O),
            0 <= r <= 8,
    {
        self.count_one_aways(Slot::O)
    }
    /// `side` takes the empty cell `idx`; the outcome field is left alone.
    pub(crate) fn place(&mut self, idx: u32, side: Slot)
        requires
            old(self).wf(),
            idx < 9,
            old(self).cell(idx as int) == Slot::Empty,
            side.is_side(),
        ensures
            final(self).wf(),
            final(self).cells() == old(self).cells().update(idx as int, side),
            final(self).status() == old(self).status(),
    {
        let old_bits = self.0;
        let off: u32 = if side == Slot::X {
            0
        } else {
            9
        };
        proof {
            lemma_cell_iff(old_bits, idx);
        }
        self.0 = (self.0 | (1u32 << (idx + off))) & !(1u32 << (18 + idx));
        proof {
            let nb = self.0;
            assert(nb == play_bits(old_bits, idx, off));
            lemma_play(old_bits, idx, off, 0);
            assert forall|j: int| 0 <= j < 9 implies #[trigger] cell_at(nb, j as u32) == old(
                self,
            ).cells().update(idx as int, side)[j] by {
                lemma_play(old_bits, idx, off, j as u32);
                lemma_play(old_bits, idx, off, (j + 9) as u32);
                lemma_play(old_bits, idx, off, (j + 18) as u32);
                lemma_cell_bits(old_bits, j as u32);
            }
            assert(self.cells() =~= old(self).cells().update(idx as int, side));
        }
    }
    /// The text of `brd` as three rows of three cells separated by spaces,
    /// each row ending in a newline.
    pub fn to_3x3(brd: [Slot; 9]) -> (r: String)
        ensures
            r@ == grid_text(brd@),
    {
        let mut s = String::new();
        let mut i: usize = 0;
        while i < 9
            invariant
                i <= 9,
                s@ == grid_prefix(brd@, i as int),
            decreases 9 - i,
        {
            s.append(slot_str(brd[i]));
            let sep: &str = if i % 3 == 2 {
                "\n"
            } else {
                " "
            };
            proof {
                reveal_strlit("\n");
                reveal_strlit(" ");
            }
            s.append(sep);
            i = i + 1;
        }
        s
    }
}

impl Default for BitBoard {
    fn default() -> (r: BitBoard)
        ensures
            r.wf(),
            r.cells() == Seq::new(9, |i: int| Slot::Empty),
            r.status() == State::Undecided,
    {
        BitBoard::new()
    }
}

} // verus!
