use vstd::prelude::*;
use vstd::std_specs::bits::u64_trailing_zeros;
use crate::pieces::{Piece, Color};
use crate::rules::bit_set;
use vstd::wrapping::u64_specs;
use rand::RngCore;

verus! {

// Bitboards: a set of squares as the bits of a `u64`, square = x + 8 * y.

/// The bitboard of one square.
pub fn position_to_bitmask(x: u32, y: u32) -> (r: u64)
    requires
        x + 8 * y < 64,
    ensures
        r == 1u64 << ((x + 8 * y) as u64),
{
    1u64 << (x + y * 8) as u64
}

/// Whether a coordinate pair lies on the board.
pub fn is_position_valid(x: isize, y: isize) -> (r: bool)
    ensures
        r == (0 <= x < 8 && 0 <= y < 8),
{
    x >= 0 && x < 8 && y >= 0 && y < 8
}

/// The lowest set square of a bitboard (64 for the empty bitboard).
pub fn next_index(b: u64) -> (r: u8)
    ensures
        r as int == u64_trailing_zeros(b),
        b == 0 <==> r == 64,
        b != 0 ==> bit_set(b, r as int) && forall|s: int| 0 <= s < r ==> !bit_set(b, s),
{
    proof {
        vstd::std_specs::bits::axiom_u64_trailing_zeros(b);
        lemma_trailing_zeros_lowest(b);
    }
    b.trailing_zeros() as u8
}

/// The trailing zero count of a non-empty bitboard is its lowest set square.
pub proof fn lemma_trailing_zeros_lowest(b: u64)
    ensures
        u64_trailing_zeros(b) <= 64,
        b == 0 <==> u64_trailing_zeros(b) == 64,
        b != 0 ==> bit_set(b, u64_trailing_zeros(b) as int) && forall|s: int|
            0 <= s < u64_trailing_zeros(b) ==> !bit_set(b, s),
{
    vstd::std_specs::bits::axiom_u64_trailing_zeros(b);
    let t = u64_trailing_zeros(b) as u64;
    if b != 0 {
        assert(t < 64 && (b >> t) & 1u64 == 1u64 ==> b & (1u64 << t) != 0) by (bit_vector);
        assert forall|s: int| 0 <= s < u64_trailing_zeros(b) implies !bit_set(b, s) by {
            let ss = s as u64;
            assert(ss < t && t <= 64 && (b << ((64 - t) as u64)) == 0u64 ==> b & (1u64 << ss) == 0) by (bit_vector);
        }
    }
}

/// Whether a square is set.
pub fn is_set(b: u64, index: u8) -> (r: bool)
    requires
        index < 64,
    ensures
        r == bit_set(b, index as int),
{
    b & (1u64 << index) != 0
}

/// The set squares of a bitboard, in ascending order (what iterating over
/// its positions yields).
pub fn positions(b: u64) -> (r: Vec<u8>)
    ensures
        forall|k: int| 0 <= k < r@.len() ==> (#[trigger] r@[k]) < 64 && bit_set(b, r@[k] as int),
        forall|s: int| 0 <= s < 64 && bit_set(b, s) ==> r@.contains(s as u8),
        forall|i: int, j: int| 0 <= i < j < r@.len() ==> r@[i] < r@[j],
{
    let mut r: Vec<u8> = Vec::new();
    let mut s: u8 = 0;
    while s < 64
        invariant
            s <= 64,
            forall|k: int| 0 <= k < r@.len() ==> (#[trigger] r@[k]) < s && bit_set(b, r@[k] as int),
            forall|t: int| 0 <= t < s && bit_set(b, t) ==> r@.contains(t as u8),
            forall|i: int, j: int| 0 <= i < j < r@.len() ==> r@[i] < r@[j],
        decreases 64 - s,
    {
        let ghost old_r = r@;
        if b & (1u64 << s) != 0 {
            r.push(s);
            assert(r@[r@.len() - 1] == s);
        }
        assert forall|t: int| 0 <= t < s + 1 && bit_set(b, t) implies r@.contains(t as u8) by {
            if t == s {
                assert(r@[r@.len() - 1] == s);
            } else {
                assert(old_r.contains(t as u8));
                let w = choose|w: int| 0 <= w < old_r.len() && old_r[w] == t as u8;
                assert(r@[w] == old_r[w]);
            }
        }
        s = s + 1;
    }
    r
}

/// The board coordinates `x + 8 * y` as a square number.
pub open spec fn square_of(x: int, y: int) -> int {
    x + 8 * y
}

/// The squares a walk from `(nx, ny)` in direction `(dx, dy)` adds to
/// `acc`: it stops at a blocker on the current square, steps, and at the
/// board's edge either stops or, with `exclude_last`, also clears the last
/// square reached; otherwise it sets the new square and, for sliders,
/// walks on (at most `fuel` more steps).
pub open spec fn ray_walk(
    nx: int,
    ny: int,
    dx: int,
    dy: int,
    slider: bool,
    exclude_last: bool,
    blockers: u64,
    acc: u64,
    fuel: nat,
) -> u64
    decreases fuel,
{
    if bit_set(blockers, square_of(nx, ny)) {
        acc
    } else {
        let mx = nx + dx;
        let my = ny + dy;
        if !(0 <= mx < 8 && 0 <= my < 8) {
            if exclude_last {
                acc & !(1u64 << (square_of(nx, ny) as u64))
            } else {
                acc
            }
        } else {
            let acc2 = acc | (1u64 << (square_of(mx, my) as u64));
            if !slider || fuel == 0 {
                acc2
            } else {
                ray_walk(mx, my, dx, dy, slider, exclude_last, blockers, acc2, (fuel - 1) as nat)
            }
        }
    }
}

/// The squares reached from `(x, y)` by the walks along the first `n`
/// deltas.
pub open spec fn walks(
    x: int,
    y: int,
    deltas: Seq<(i8, i8)>,
    n: int,
    slider: bool,
    exclude_last: bool,
    blockers: u64,
) -> u64
    decreases n,
{
    if n <= 0 {
        0
    } else {
        ray_walk(
            x,
            y,
            deltas[n - 1].0 as int,
            deltas[n - 1].1 as int,
            slider,
            exclude_last,
            blockers,
            walks(x, y, deltas, n - 1, slider, exclude_last, blockers),
            8,
        )
    }
}

/// Whether a delta moves a piece, by at most two squares each way.
pub open spec fn step_ok(d: (i8, i8)) -> bool {
    -2 <= d.0 <= 2 && -2 <= d.1 <= 2 && (d.0 != 0 || d.1 != 0)
}

/// The squares a piece on `(x, y)` reaches along the given deltas: one step
/// each, or for sliders up to and including the first blocker; with
/// `exclude_last` the last square before the edge is left out.
pub fn create_bitboard_for_piece(
    x: usize,
    y: usize,
    deltas: &Vec<(i8, i8)>,
    slider: bool,
    exclude_last: bool,
    blockers: u64,
) -> (r: u64)
    requires
        x < 8,
        y < 8,
        forall|i: int| 0 <= i < deltas@.len() ==> step_ok(#[trigger] deltas@[i]),
    ensures
        r == walks(x as int, y as int, deltas@, deltas@.len() as int, slider, exclude_last, blockers),
{
    let mut bitboard: u64 = 0;
    let mut i: usize = 0;
    while i < deltas.len()
        invariant
            i <= deltas@.len(),
            x < 8,
            y < 8,
            forall|k: int| 0 <= k < deltas@.len() ==> step_ok(#[trigger] deltas@[k]),
            bitboard == walks(x as int, y as int, deltas@, i as int, slider, exclude_last, blockers),
        decreases deltas@.len() - i,
    {
        let (dx, dy) = deltas[i];
        assert(step_ok(deltas@[i as int]));
        let ghost start = bitboard;
        let mut nx: i8 = x as i8;
        let mut ny: i8 = y as i8;
        let mut fuel: u8 = 8;
        let mut done = false;
        while !done
            invariant
                0 <= nx < 8,
                0 <= ny < 8,
                -2 <= dx <= 2,
                -2 <= dy <= 2,
                fuel <= 8,
                !done ==> ray_walk(x as int, y as int, dx as int, dy as int, slider, exclude_last, blockers, start, 8)
                    == ray_walk(nx as int, ny as int, dx as int, dy as int, slider, exclude_last, blockers, bitboard, fuel as nat),
                done ==> bitboard == ray_walk(x as int, y as int, dx as int, dy as int, slider, exclude_last, blockers, start, 8),
            decreases fuel, if done { 0int } else { 1int },
        {
            let here = (nx as u32) + 8 * (ny as u32);
            if blockers & (1u64 << here) != 0 {
                done = true;
            } else {
                let mx = nx + dx;
                let my = ny + dy;
                if !(mx >= 0 && mx < 8 && my >= 0 && my < 8) {
                    if exclude_last {
                        bitboard = bitboard & !(1u64 << here);
                    }
                    done = true;
                } else {
                    let there = (mx as u32) + 8 * (my as u32);
                    bitboard = bitboard | (1u64 << there);
                    if !slider || fuel == 0 {
                        done = true;
                    } else {
                        nx = mx;
                        ny = my;
                        fuel = fuel - 1;
                    }
                }
            }
        }
        i = i + 1;
    }
    bitboard
}

/// The directions a piece attacks along (pawns toward the opponent's side:
/// black pawns down, white pawns up).
pub open spec fn attack_deltas(p: Piece, c: Color) -> Seq<(i8, i8)> {
    match p {
        Piece::Pawn => match c {
            Color::Black => seq![(-1i8, -1i8), (1i8, -1i8)],
            Color::White => seq![(-1i8, 1i8), (1i8, 1i8)],
        },
        Piece::Knight => seq![
            (1i8, 2i8),
            (2i8, 1i8),
            (-1i8, 2i8),
            (-2i8, 1i8),
            (1i8, -2i8),
            (2i8, -1i8),
            (-1i8, -2i8),
            (-2i8, -1i8),
        ],
        Piece::Bishop => seq![(1i8, 1i8), (1i8, -1i8), (-1i8, 1i8), (-1i8, -1i8)],
        Piece::Rook => seq![(1i8, 0i8), (0i8, 1i8), (-1i8, 0i8), (0i8, -1i8)],
        _ => seq![
            (1i8, 0i8),
            (0i8, 1i8),
            (-1i8, 0i8),
            (0i8, -1i8),
            (1i8, 1i8),
            (1i8, -1i8),
            (-1i8, 1i8),
            (-1i8, -1i8),
        ],
    }
}

/// The attack directions of a piece.
pub fn get_attack_piece_deltas(piece: Piece, color: Color) -> (r: Vec<(i8, i8)>)
    ensures
        r@ == attack_deltas(piece, color),
        forall|i: int| 0 <= i < r@.len() ==> step_ok(#[trigger] r@[i]),
{
    let r = match piece {
        Piece::Pawn => match color {
            Color::Black => vec![(-1i8, -1i8), (1i8, -1i8)],
            Color::White => vec![(-1i8, 1i8), (1i8, 1i8)],
        },
        Piece::Knight => vec![
            (1i8, 2i8),
            (2i8, 1i8),
            (-1i8, 2i8),
            (-2i8, 1i8),
            (1i8, -2i8),
            (2i8, -1i8),
            (-1i8, -2i8),
            (-2i8, -1i8),
        ],
        Piece::Bishop => vec![(1i8, 1i8), (1i8, -1i8), (-1i8, 1i8), (-1i8, -1i8)],
        Piece::Rook => vec![(1i8, 0i8), (0i8, 1i8), (-1i8, 0i8), (0i8, -1i8)],
        _ => vec![
            (1i8, 0i8),
            (0i8, 1i8),
            (-1i8, 0i8),
            (0i8, -1i8),
            (1i8, 1i8),
            (1i8, -1i8),
            (-1i8, 1i8),
            (-1i8, -1i8),
        ],
    };
    assert(r@ =~= attack_deltas(piece, color));
    r
}

/// The squares a piece kind attacks from every square of an empty board
/// (pawns as white pawns), indexed by square.
pub fn piece_move_bitboards(piece: Piece) -> (r: Vec<u64>)
    ensures
        r@.len() == 64,
        forall|s: int|
            0 <= s < 64 ==> #[trigger] r@[s] == walks(
                s % 8,
                s / 8,
                attack_deltas(piece, Color::Black),
                attack_deltas(piece, Color::Black).len() as int,
                (piece == Piece::Bishop || piece == Piece::Rook || piece == Piece::Queen),
                false,
                0,
            ),
{
    let deltas = get_attack_piece_deltas(piece, Color::Black);
    let slider = piece.is_slider();
    table_of_walks(&deltas, slider, false)
}

/// The squares a pawn of a color attacks from every square, indexed by square.
pub fn pawn_attack_bitboards(color: Color) -> (r: Vec<u64>)
    ensures
        r@.len() == 64,
        forall|s: int|
            0 <= s < 64 ==> #[trigger] r@[s] == walks(
                s % 8,
                s / 8,
                attack_deltas(Piece::Pawn, color),
                2,
                false,
                false,
                0,
            ),
{
    let deltas = get_attack_piece_deltas(Piece::Pawn, color);
    table_of_walks(&deltas, false, false)
}

/// The relevant blocker squares of a slider on every square: its rays on
/// an empty board without the square at the edge, indexed by square.
pub fn calculate_blocker_bitboards(piece: Piece) -> (r: Vec<u64>)
    ensures
        r@.len() == 64,
        forall|s: int|
            0 <= s < 64 ==> #[trigger] r@[s] == walks(
                s % 8,
                s / 8,
                attack_deltas(piece, Color::Black),
                attack_deltas(piece, Color::Black).len() as int,
                true,
                true,
                0,
            ),
{
    let deltas = get_attack_piece_deltas(piece, Color::Black);
    table_of_walks(&deltas, true, true)
}

/// The walks along the deltas from every square, indexed by square.
fn table_of_walks(deltas: &Vec<(i8, i8)>, slider: bool, exclude_last: bool) -> (r: Vec<u64>)
    requires
        forall|i: int| 0 <= i < deltas@.len() ==> step_ok(#[trigger] deltas@[i]),
    ensures
        r@.len() == 64,
        forall|s: int|
            0 <= s < 64 ==> #[trigger] r@[s] == walks(
                s % 8,
                s / 8,
                deltas@,
                deltas@.len() as int,
                slider,
                exclude_last,
                0,
            ),
{
    let mut r: Vec<u64> = Vec::new();
    let mut s: usize = 0;
    while s < 64
        invariant
            s <= 64,
            r@.len() == s,
            forall|i: int| 0 <= i < deltas@.len() ==> step_ok(#[trigger] deltas@[i]),
            forall|t: int|
                0 <= t < s ==> #[trigger] r@[t] == walks(
                    t % 8,
                    t / 8,
                    deltas@,
                    deltas@.len() as int,
                    slider,
                    exclude_last,
                    0,
                ),
        decreases 64 - s,
    {
        let b = create_bitboard_for_piece(s % 8, s / 8, deltas, slider, exclude_last, 0);
        r.push(b);
        s = s + 1;
    }
    r
}

/// The squares of `mask` from square `s` on that the bits of `idx` select:
/// the lowest remaining square of the mask takes the lowest bit of `idx`,
/// the next one the next bit, and so on.
pub open spec fn deposit(mask: u64, idx: nat, s: int) -> u64
    decreases 64 - s,
{
    if s < 0 || s >= 64 {
        0
    } else if bit_set(mask, s) {
        (if idx % 2 == 1 {
            1u64 << (s as u64)
        } else {
            0u64
        }) | deposit(mask, idx / 2, s + 1)
    } else {
        deposit(mask, idx, s + 1)
    }
}

/// The blocker arrangement with number `index`: the squares of `mask`
/// selected by the bits of `index`, lowest square first.
pub fn blocker_subset(mask: u64, index: u64) -> (r: u64)
    ensures
        r == deposit(mask, index as nat, 0),
{
    let mut r: u64 = 0;
    let mut idx: u64 = index;
    let mut s: u64 = 0;
    let ghost d0 = deposit(mask, index as nat, 0);
    assert(0u64 | d0 == d0) by (bit_vector);
    while s < 64
        invariant
            s <= 64,
            deposit(mask, index as nat, 0) == r | deposit(mask, idx as nat, s as int),
        decreases 64 - s,
    {
        let ghost rest = deposit(mask, idx as nat / 2, s + 1);
        let ghost rest_same = deposit(mask, idx as nat, s + 1);
        if mask & (1u64 << s) != 0 {
            assert(bit_set(mask, s as int));
            let bit: u64 = if idx % 2 == 1 {
                1u64 << s
            } else {
                0u64
            };
            assert(r | (bit | rest) == (r | bit) | rest) by (bit_vector);
            r = r | bit;
            idx = idx / 2;
        } else {
            assert(!bit_set(mask, s as int));
        }
        s = s + 1;
    }
    assert(deposit(mask, idx as nat, 64) == 0);
    assert(r | 0u64 == r) by (bit_vector);
    r
}

/// A magic multiplier with the table of moves it indexes.
pub struct MagicBitboardEntry {
    pub magic: u64,
    /// The shift that keeps the top bits of the product.
    pub shift: u8,
    /// Moves by table index; unused indices hold 0.
    pub entries: Vec<u64>,
    /// The highest index any blocker arrangement maps to.
    pub max_index: usize,
}

/// The table index of a blocker arrangement: the top `bits` bits of its
/// wrapping product with the magic number.
pub open spec fn magic_index(blockers: u64, magic: u64, bits: u32) -> int {
    (u64_specs::wrapping_mul(blockers, magic) >> ((64 - bits) as u64)) as int
}

/// Whether two arrangements that share an index need different moves.
pub open spec fn magic_collides(keys: Seq<(u64, u64)>, magic: u64, bits: u32) -> bool {
    exists|i: int, j: int|
        0 <= i < keys.len() && 0 <= j < keys.len() && magic_index(keys[i].0, magic, bits) == magic_index(
            keys[j].0,
            magic,
            bits,
        ) && #[trigger] keys[i].1 != #[trigger] keys[j].1
}

/// The highest index among the first `n` arrangements.
pub open spec fn highest_index(keys: Seq<(u64, u64)>, magic: u64, bits: u32, n: int) -> int
    decreases n,
{
    if n <= 0 {
        0
    } else {
        let h = magic_index(keys[n - 1].0, magic, bits);
        let prev = highest_index(keys, magic, bits, n - 1);
        if h > prev {
            h
        } else {
            prev
        }
    }
}

/// Whether a magic candidate is accepted: it is not zero, no two
/// arrangements that need different moves share an index, and a target, if
/// given, is beaten by the highest index.
pub open spec fn magic_accepted(keys: Seq<(u64, u64)>, magic: u64, bits: u32, target: Option<usize>) -> bool {
    &&& magic != 0
    &&& !magic_collides(keys, magic, bits)
    &&& target matches Some(t) ==> highest_index(keys, magic, bits, keys.len() as int) < t
}

/// Checks one magic candidate for the arrangements `keys` (blockers with the
/// moves they leave) with tables of `bits` index bits, and builds its table
/// when it is accepted.
pub fn try_magic(keys: &Vec<(u64, u64)>, bits: u32, magic: u64, target: Option<usize>) -> (r: Option<
    MagicBitboardEntry,
>)
    requires
        1 <= bits <= 20,
    ensures
        r is Some <==> magic_accepted(keys@, magic, bits, target),
        r matches Some(e) ==> {
            &&& e.magic == magic
            &&& e.shift == 64 - bits
            &&& e.max_index == highest_index(keys@, magic, bits, keys@.len() as int)
            &&& e.entries@.len() == e.max_index + 1
            &&& forall|k: int|
                0 <= k < keys@.len() ==> e.entries@[magic_index(#[trigger] keys@[k].0, magic, bits)]
                    == keys@[k].1
        },
{
    if magic == 0 {
        return None;
    }
    let size: usize = 1usize << bits;
    assert(size as int == (1u64 << (bits as u64)) as int) by {
        let b = bits as u64;
        assert(b <= 20 ==> (1usize << b) as u64 == 1u64 << b) by (bit_vector);
    }
    assert(size >= 2) by {
        let b = bits as u64;
        assert(1 <= b && b <= 20 ==> (1u64 << b) >= 2) by (bit_vector);
    }
    let mut hash_table: Vec<Option<u64>> = Vec::new();
    let mut z: usize = 0;
    while z < size
        invariant
            z <= size,
            hash_table@.len() == z,
            forall|q: int| 0 <= q < z ==> hash_table@[q] is None,
        decreases size - z,
    {
        hash_table.push(None);
        z = z + 1;
    }
    let mut highest: usize = 0;
    let mut i: usize = 0;
    let n = keys.len();
    while i < n
        invariant
            1 <= bits <= 20,
            size as int == (1u64 << (bits as u64)) as int,
            n == keys@.len(),
            i <= n,
            hash_table@.len() == size,
            highest as int == highest_index(keys@, magic, bits, i as int),
            highest < size,
            forall|k: int| 0 <= k < i ==> 0 <= #[trigger] magic_index(keys@[k].0, magic, bits) < size,
            forall|k: int|
                0 <= k < i ==> hash_table@[magic_index(#[trigger] keys@[k].0, magic, bits)] == Some(keys@[k].1),
            forall|q: int| 0 <= q < size && (#[trigger] hash_table@[q]) is Some ==> exists|k: int|
                0 <= k < i && magic_index(keys@[k].0, magic, bits) == q,
        decreases n - i,
    {
        let (blockers, moves) = keys[i];
        let product = blockers.wrapping_mul(magic);
        let hash = (product >> (64 - bits)) as usize;
        proof {
            lemma_top_bits_bound(product, bits);
        }
        assert(hash as int == magic_index(keys@[i as int].0, magic, bits));
        if hash > highest {
            highest = hash;
        }
        match hash_table[hash] {
            Some(existing) => {
                if existing != moves {
                    proof {
                        let k = choose|k: int| 0 <= k < i && magic_index(keys@[k].0, magic, bits) == hash;
                        assert(keys@[k].1 == existing);
                        assert(keys@[k].1 != keys@[i as int].1);
                        assert(magic_collides(keys@, magic, bits));
                    }
                    return None;
                }
            },
            None => {
                hash_table.set(hash, Some(moves));
            },
        }
        i = i + 1;
    }
    assert(!magic_collides(keys@, magic, bits)) by {
        if magic_collides(keys@, magic, bits) {
            let (a, b) = choose|a: int, b: int|
                0 <= a < keys@.len() && 0 <= b < keys@.len() && magic_index(keys@[a].0, magic, bits)
                    == magic_index(keys@[b].0, magic, bits) && #[trigger] keys@[a].1 != #[trigger] keys@[b].1;
            assert(hash_table@[magic_index(keys@[a].0, magic, bits)] == Some(keys@[a].1));
            assert(hash_table@[magic_index(keys@[b].0, magic, bits)] == Some(keys@[b].1));
        }
    }
    match target {
        Some(t) => {
            if highest >= t {
                return None;
            }
        },
        None => {},
    }
    let mut entries: Vec<u64> = Vec::new();
    let mut q: usize = 0;
    while q <= highest
        invariant
            q <= highest + 1,
            highest < size,
            hash_table@.len() == size,
            entries@.len() == q,
            forall|w: int| 0 <= w < q ==> #[trigger] entries@[w] == match hash_table@[w] {
                Some(v) => v,
                None => 0u64,
            },
        decreases highest + 1 - q,
    {
        let v = match hash_table[q] {
            Some(v) => v,
            None => 0u64,
        };
        entries.push(v);
        q = q + 1;
    }
    assert forall|k: int| 0 <= k < keys@.len() implies entries@[magic_index(#[trigger] keys@[k].0, magic, bits)]
        == keys@[k].1 by {
        lemma_highest_bounds(keys@, magic, bits, keys@.len() as int, k);
        assert(hash_table@[magic_index(keys@[k].0, magic, bits)] == Some(keys@[k].1));
    }
    Some(MagicBitboardEntry { magic, shift: (64 - bits) as u8, entries, max_index: highest })
}

/// Every arrangement of blockers on the squares of `mask` that `bits`
/// index bits spread over (see `deposit`), each with the attacks of a
/// slider with the deltas of `piece` on `(x, y)` against it.
pub fn magic_keys(mask: u64, bits: u32, x: usize, y: usize, piece: Piece) -> (r: Vec<(u64, u64)>)
    requires
        x < 8,
        y < 8,
        bits < 64,
    ensures
        r@.len() == (1u64 << (bits as u64)),
        forall|i: int|
            0 <= i < r@.len() ==> #[trigger] r@[i] == (
                deposit(mask, i as nat, 0),
                walks(
                    x as int,
                    y as int,
                    attack_deltas(piece, Color::Black),
                    attack_deltas(piece, Color::Black).len() as int,
                    true,
                    false,
                    deposit(mask, i as nat, 0),
                ),
            ),
{
    let key_count: u64 = 1u64 << bits;
    let deltas = get_attack_piece_deltas(piece, Color::Black);
    let mut keys: Vec<(u64, u64)> = Vec::new();
    let mut index: u64 = 0;
    while index < key_count
        invariant
            x < 8,
            y < 8,
            index <= key_count,
            keys@.len() == index,
            deltas@ == attack_deltas(piece, Color::Black),
            forall|i: int| 0 <= i < deltas@.len() ==> step_ok(#[trigger] deltas@[i]),
            forall|i: int|
                0 <= i < index ==> #[trigger] keys@[i] == (
                    deposit(mask, i as nat, 0),
                    walks(
                        x as int,
                        y as int,
                        attack_deltas(piece, Color::Black),
                        attack_deltas(piece, Color::Black).len() as int,
                        true,
                        false,
                        deposit(mask, i as nat, 0),
                    ),
                ),
        decreases key_count - index,
    {
        let blockers = blocker_subset(mask, index);
        let valid_moves = create_bitboard_for_piece(x, y, &deltas, true, false, blockers);
        keys.push((blockers, valid_moves));
        index = index + 1;
    }
    keys
}

/// Calls `RngCore::next_u64` on the thread's generator (`rand::rng()`): a
/// random value; nothing is promised of it.
#[verifier::external_body]
fn random_u64() -> u64 {
    rand::rng().next_u64()
}

/// Draws up to `attempts` random candidates, each the AND of three random
/// values so that few bits are set, and answers the entry of the first one
/// that `try_magic` accepts, if any.
pub fn find_magic(keys: &Vec<(u64, u64)>, bits: u32, target: Option<usize>, attempts: u64) -> (r: Option<
    MagicBitboardEntry,
>)
    requires
        1 <= bits <= 20,
    ensures
        r matches Some(e) ==> {
            &&& magic_accepted(keys@, e.magic, bits, target)
            &&& e.shift == 64 - bits
            &&& e.max_index == highest_index(keys@, e.magic, bits, keys@.len() as int)
            &&& e.entries@.len() == e.max_index + 1
            &&& forall|k: int|
                0 <= k < keys@.len() ==> e.entries@[magic_index(#[trigger] keys@[k].0, e.magic, bits)]
                    == keys@[k].1
        },
{
    let mut tried: u64 = 0;
    while tried < attempts
        invariant
            1 <= bits <= 20,
            tried <= attempts,
        decreases attempts - tried,
    {
        tried = tried + 1;
        let magic = random_u64() & random_u64() & random_u64();
        match try_magic(keys, bits, magic, target) {
            Some(entry) => {
                return Some(entry);
            },
            None => {},
        }
    }
    None
}

/// The number of table entries of the first `n` magic entries.
pub open spec fn entries_total(es: Seq<MagicBitboardEntry>, n: int) -> int
    decreases n,
{
    if n <= 0 {
        0
    } else {
        entries_total(es, n - 1) + es[n - 1].entries@.len()
    }
}

/// The table entries of the first `n` magic entries, one after another.
pub open spec fn all_entries(es: Seq<MagicBitboardEntry>, n: int) -> Seq<u64>
    decreases n,
{
    if n <= 0 {
        Seq::empty()
    } else {
        all_entries(es, n - 1) + es[n - 1].entries@
    }
}

proof fn lemma_entries_total_grows(es: Seq<MagicBitboardEntry>, i: int, n: int)
    requires
        0 <= i <= n,
    ensures
        entries_total(es, i) <= entries_total(es, n),
    decreases n,
{
    if i < n {
        lemma_entries_total_grows(es, i, n - 1);
    }
}

/// Lays the magic entries out flat: for each, its multiplier, where its
/// table starts among all entries, and its shift; and all tables one after
/// another.
pub fn flatten_magic_tables(es: &Vec<MagicBitboardEntry>) -> (r: (Vec<(u64, usize, u8)>, Vec<u64>))
    requires
        entries_total(es@, es@.len() as int) <= usize::MAX,
    ensures
        r.0@.len() == es@.len(),
        forall|i: int|
            0 <= i < es@.len() ==> #[trigger] r.0@[i] == (es@[i].magic, entries_total(es@, i) as usize, es@[i].shift),
        r.1@ == all_entries(es@, es@.len() as int),
{
    let mut table: Vec<(u64, usize, u8)> = Vec::new();
    let mut all: Vec<u64> = Vec::new();
    let mut offset: usize = 0;
    let mut i: usize = 0;
    while i < es.len()
        invariant
            i <= es@.len(),
            entries_total(es@, es@.len() as int) <= usize::MAX,
            offset == entries_total(es@, i as int),
            table@.len() == i,
            forall|q: int| 0 <= q < i ==> #[trigger] table@[q] == (es@[q].magic, entries_total(es@, q) as usize, es@[q].shift),
            all@ == all_entries(es@, i as int),
        decreases es@.len() - i,
    {
        let e = &es[i];
        table.push((e.magic, offset, e.shift));
        let mut j: usize = 0;
        let ghost before = all@;
        while j < e.entries.len()
            invariant
                j <= e.entries@.len(),
                all@ == before + e.entries@.subrange(0, j as int),
            decreases e.entries@.len() - j,
        {
            all.push(e.entries[j]);
            assert(all@ =~= before + e.entries@.subrange(0, j + 1));
            j = j + 1;
        }
        assert(e.entries@.subrange(0, e.entries@.len() as int) =~= e.entries@);
        proof {
            lemma_entries_total_grows(es@, i + 1, es@.len() as int);
        }
        offset = offset + e.entries.len();
        i = i + 1;
    }
    (table, all)
}

/// The top `bits` bits of a product lie below the table size.
proof fn lemma_top_bits_bound(p: u64, bits: u32)
    requires
        1 <= bits <= 20,
    ensures
        (p >> ((64 - bits) as u64)) < (1u64 << (bits as u64)),
{
    let b = bits as u64;
    assert(1 <= b <= 20 ==> (p >> ((64 - b) as u64)) < (1u64 << b)) by (bit_vector);
}

/// Every arrangement's index is at most the highest one.
proof fn lemma_highest_bounds(keys: Seq<(u64, u64)>, magic: u64, bits: u32, n: int, k: int)
    requires
        0 <= k < n <= keys.len(),
    ensures
        magic_index(keys[k].0, magic, bits) <= highest_index(keys, magic, bits, n),
    decreases n,
{
    if k < n - 1 {
        lemma_highest_bounds(keys, magic, bits, n - 1, k);
    }
}

} // verus!
