use vstd::prelude::*;
use vstd::wrapping::u64_specs;

verus! {

/// Multiplier of the linear congruential generator.
pub const LCG_A: u64 = 1664525;

/// Increment of the linear congruential generator.
pub const LCG_C: u64 = 1013904223;

/// Seed of the generator that produces the Zobrist keys.
pub const ZOBRIST_SEED: u64 = 0xbadc0ffee;

/// One step of the generator: `state * A + C` modulo 2^64.
pub open spec fn lcg_step(state: u64) -> u64 {
    u64_specs::wrapping_add(u64_specs::wrapping_mul(state, LCG_A), LCG_C)
}

/// The generator's state after `n` steps from `seed`.
pub open spec fn lcg_value(seed: u64, n: nat) -> u64
    decreases n,
{
    if n == 0 {
        seed
    } else {
        lcg_step(lcg_value(seed, (n - 1) as nat))
    }
}

/// A linear congruential generator of 64-bit values.
pub struct LCG {
    pub state: u64,
}

impl LCG {
    /// A generator seeded with `seed`.
    pub fn new(seed: u64) -> (r: Self)
        ensures
            r.state == seed,
    {
        Self { state: seed }
    }

    /// Advances the generator and returns the new state together with the
    /// advanced generator.
    pub fn next_u64(self) -> (r: (u64, Self))
        ensures
            r.0 == lcg_step(self.state),
            r.1.state == r.0,
    {
        let s = self.state.wrapping_mul(LCG_A).wrapping_add(LCG_C);
        (s, Self { state: s })
    }
}

/// Number of piece-square keys: two colors, six pieces, 64 squares.
pub const PIECE_KEY_COUNT: usize = 768;

/// Index of the key of a colored piece on a square.
pub open spec fn piece_key_index(color: nat, piece: nat, square: nat) -> nat {
    color * 384 + piece * 64 + square
}

/// The random keys that Zobrist hashing combines: one per colored piece on a
/// square, one per castling-rights value, one per en-passant file (index 0,
/// no en-passant square, holds 0), and one for black to move.
#[derive(Clone)]
pub struct ZobristKeys {
    /// Keys laid out as `[color][piece][square]`, color-major.
    pub pieces: Vec<u64>,
    pub castling: Vec<u64>,
    pub en_passant: Vec<u64>,
    pub side_to_move: u64,
}

impl ZobristKeys {
    /// Whether these are the keys that the generator produces from the fixed
    /// seed, drawn in order: 768 piece keys, 16 castling keys, 8 en-passant
    /// keys (stored from index 1), then the side key.
    pub open spec fn is_standard(&self) -> bool {
        &&& self.pieces@.len() == 768
        &&& self.castling@.len() == 16
        &&& self.en_passant@.len() == 9
        &&& forall|i: int| 0 <= i < 768 ==> #[trigger] self.pieces@[i] == lcg_value(ZOBRIST_SEED, (i + 1) as nat)
        &&& forall|i: int| 0 <= i < 16 ==> #[trigger] self.castling@[i] == lcg_value(ZOBRIST_SEED, (769 + i) as nat)
        &&& self.en_passant@[0] == 0
        &&& forall|i: int| 1 <= i < 9 ==> #[trigger] self.en_passant@[i] == lcg_value(ZOBRIST_SEED, (784 + i) as nat)
        &&& self.side_to_move == lcg_value(ZOBRIST_SEED, 793)
    }

    /// Whether the key tables have their sizes.
    pub open spec fn wf(&self) -> bool {
        &&& self.pieces@.len() == 768
        &&& self.castling@.len() == 16
        &&& self.en_passant@.len() == 9
        &&& self.en_passant@[0] == 0
    }

    /// The key of a colored piece on a square.
    pub open spec fn spec_piece_key(&self, color: nat, piece: nat, square: nat) -> u64 {
        self.pieces@[piece_key_index(color, piece, square) as int]
    }

    /// Generates the keys from the fixed seed.
    pub fn new() -> (r: Self)
        ensures
            r.is_standard(),
            r.wf(),
    {
        let mut rng = LCG::new(ZOBRIST_SEED);
        let mut pieces: Vec<u64> = Vec::new();
        let mut i: usize = 0;
        while i < 768
            invariant
                i <= 768,
                pieces@.len() == i,
                rng.state == lcg_value(ZOBRIST_SEED, i as nat),
                forall|j: int| 0 <= j < i ==> #[trigger] pieces@[j] == lcg_value(ZOBRIST_SEED, (j + 1) as nat),
            decreases 768 - i,
        {
            let (value, next) = rng.next_u64();
            pieces.push(value);
            rng = next;
            i = i + 1;
        }
        let mut castling: Vec<u64> = Vec::new();
        let mut j: usize = 0;
        while j < 16
            invariant
                j <= 16,
                castling@.len() == j,
                rng.state == lcg_value(ZOBRIST_SEED, (768 + j) as nat),
                forall|k: int| 0 <= k < j ==> #[trigger] castling@[k] == lcg_value(ZOBRIST_SEED, (769 + k) as nat),
            decreases 16 - j,
        {
            let (value, next) = rng.next_u64();
            castling.push(value);
            rng = next;
            j = j + 1;
        }
        let mut en_passant: Vec<u64> = Vec::new();
        en_passant.push(0);
        let mut k: usize = 0;
        while k < 8
            invariant
                k <= 8,
                en_passant@.len() == k + 1,
                en_passant@[0] == 0,
                rng.state == lcg_value(ZOBRIST_SEED, (784 + k) as nat),
                forall|t: int| 1 <= t < k + 1 ==> #[trigger] en_passant@[t] == lcg_value(ZOBRIST_SEED, (784 + t) as nat),
            decreases 8 - k,
        {
            let (value, next) = rng.next_u64();
            en_passant.push(value);
            rng = next;
            k = k + 1;
        }
        let (side_to_move, _) = rng.next_u64();
        ZobristKeys { pieces, castling, en_passant, side_to_move }
    }

    /// The key of a colored piece on a square.
    pub fn piece_key(&self, color: usize, piece: usize, square: usize) -> (r: u64)
        requires
            self.wf(),
            color < 2,
            piece < 6,
            square < 64,
        ensures
            r == self.spec_piece_key(color as nat, piece as nat, square as nat),
    {
        self.pieces[color * 384 + piece * 64 + square]
    }
}


impl ZobristKeys {
    /// All keys the hash combines, in order: the piece keys, the castling
    /// keys, the en-passant keys (without the zero at index 0), the side key.
    pub open spec fn all_keys(&self) -> Seq<u64> {
        self.pieces@ + self.castling@ + self.en_passant@.skip(1) + seq![self.side_to_move]
    }

    /// Whether no two of the keys are equal.
    pub fn keys_distinct(&self) -> (r: bool)
        requires
            self.wf(),
        ensures
            r == self.all_keys().no_duplicates(),
    {
        let mut all: Vec<u64> = Vec::new();
        let mut i: usize = 0;
        while i < self.pieces.len()
            invariant
                i <= self.pieces@.len(),
                all@ == self.pieces@.take(i as int),
            decreases self.pieces@.len() - i,
        {
            all.push(self.pieces[i]);
            i = i + 1;
            assert(all@ =~= self.pieces@.take(i as int));
        }
        i = 0;
        while i < self.castling.len()
            invariant
                i <= self.castling@.len(),
                all@ == self.pieces@ + self.castling@.take(i as int),
            decreases self.castling@.len() - i,
        {
            all.push(self.castling[i]);
            i = i + 1;
            assert(all@ =~= self.pieces@ + self.castling@.take(i as int));
        }
        assert(self.pieces@.take(self.pieces@.len() as int) =~= self.pieces@);
        i = 1;
        while i < self.en_passant.len()
            invariant
                1 <= i <= self.en_passant@.len(),
                all@ == self.pieces@ + self.castling@ + self.en_passant@.subrange(1, i as int),
            decreases self.en_passant@.len() - i,
        {
            all.push(self.en_passant[i]);
            i = i + 1;
            assert(all@ =~= self.pieces@ + self.castling@ + self.en_passant@.subrange(1, i as int));
        }
        all.push(self.side_to_move);
        assert(all@ =~= self.all_keys());
        let n = all.len();
        let mut a: usize = 0;
        while a < n
            invariant
                n == all@.len(),
                all@ == self.all_keys(),
                a <= n,
                forall|x: int, y: int| 0 <= x < a && x < y < n ==> all@[x] != all@[y],
            decreases n - a,
        {
            let mut b: usize = a + 1;
            while b < n
                invariant
                    n == all@.len(),
                    all@ == self.all_keys(),
                    a < n,
                    a + 1 <= b <= n,
                    forall|y: int| a < y < b ==> all@[a as int] != all@[y],
                decreases n - b,
            {
                if all[a] == all[b] {
                    assert(!all@.no_duplicates());
                    return false;
                }
                b = b + 1;
            }
            a = a + 1;
        }
        assert forall|x: int, y: int| 0 <= x < n && 0 <= y < n && x != y implies all@[x] != all@[y] by {
            if x > y {
                assert(all@[y] != all@[x]);
            }
        }
        true
    }
}

} // verus!
