//! Poseidon hash parameters for the scalar fields of MNT4-753 and MNT6-753.
//!
//! **For tests and experiments, not for production.** Round constants and the
//! MDS matrix are pseudo-random values drawn from a fixed seed, not the output
//! of a reviewed parameter-generation method. No maintained generator targets
//! these fields yet; audited parameters are needed before any production use.

use vstd::prelude::*;
use ark_ff::{PrimeField, UniformRand};
use ark_std::rand::rngs::StdRng;
use ark_std::rand::SeedableRng;
use crate::field;
use crate::field::{Fr, OwnerScalar};

verus! {

pub const FULL_ROUNDS: usize = 8;

pub const PARTIAL_ROUNDS: usize = 60;

pub const ALPHA: u64 = 5;

pub const RATE: usize = 2;

pub const CAPACITY: usize = 1;

/// Number of rounds of the permutation.
pub const ROUNDS: usize = 68;

/// Number of elements of the sponge's state.
pub const WIDTH: usize = 3;

/// Number of elements that the parameters hold: a row of round keys for each
/// round, then the mixing matrix.
pub const DRAWS: usize = 213;

/// Seed of the parameters over the scalar field of MNT4-753.
pub const MNT4_SEED: u64 = 0x434c_4f41_4b4d_5434;

/// Seed of the parameters over the scalar field of MNT6-753.
pub const MNT6_SEED: u64 = 0x434c_4f41_4b4d_5436;

/// Parameters of a Poseidon sponge over elements of type `F`.
#[derive(Clone, Debug)]
pub struct PoseidonConfig<F> {
    /// Number of rounds in which every state element goes through the S-box.
    pub full_rounds: usize,
    /// Number of rounds in which only the first state element does.
    pub partial_rounds: usize,
    /// Exponent of the S-box.
    pub alpha: u64,
    /// Round keys: `ark[round][state element]`.
    pub ark: Vec<Vec<F>>,
    /// The mixing matrix.
    pub mds: Vec<Vec<F>>,
    /// Number of state elements that absorb and squeeze.
    pub rate: usize,
    /// Number of state elements that never do.
    pub capacity: usize,
}

/// A matrix has `rows` rows of `columns` elements each.
pub open spec fn has_shape<F>(matrix: Seq<Vec<F>>, rows: int, columns: int) -> bool {
    &&& matrix.len() == rows
    &&& forall|i: int| 0 <= i < matrix.len() ==> (#[trigger] matrix[i])@.len() == columns
}

impl<F> PoseidonConfig<F> {
    /// The dimensions agree with one another, and something can be absorbed.
    pub open spec fn well_formed(&self) -> bool {
        &&& self.rate > 0
        &&& has_shape(self.ark@, self.full_rounds + self.partial_rounds, self.rate + self.capacity)
        &&& has_shape(self.mds@, self.rate + self.capacity, self.rate + self.capacity)
    }
}

/// The representatives of a matrix of field elements.
pub open spec fn matrix_values(matrix: Seq<Vec<Fr>>) -> Seq<Seq<nat>> {
    matrix.map_values(|row: Vec<Fr>| field::fr_values(row@))
}

/// The `index`-th element that `rand` draws over the scalar field of MNT4-753
/// from a standard generator seeded with `seed`.
pub uninterp spec fn fr_draw(seed: u64, index: nat) -> nat;

/// The `index`-th element that `rand` draws over the scalar field of MNT6-753
/// from a standard generator seeded with `seed`.
pub uninterp spec fn owner_draw(seed: u64, index: nat) -> nat;

/// `UniformRand::rand` over the scalar field of MNT4-753, called `count` times
/// on one `StdRng::seed_from_u64(seed)`: what comes out depends on the seed and
/// on the position alone. The values are pseudo-random, so nothing else is said of them.
#[verifier::external_body]
fn draw_fr(seed: u64, count: usize) -> (r: Vec<Fr>)
    ensures
        r@.len() == count,
        forall|i: int| 0 <= i < count ==> (#[trigger] r@[i])@ == fr_draw(seed, i as nat),
{
    let mut rng = StdRng::seed_from_u64(seed);
    (0..count).map(|_| Fr { limbs: ark_mnt4_753::Fr::rand(&mut rng).into_bigint().0 }).collect()
}

/// `UniformRand::rand` over the scalar field of MNT6-753, called `count` times
/// on one `StdRng::seed_from_u64(seed)`: what comes out depends on the seed and
/// on the position alone. The values are pseudo-random, so nothing else is said of them.
#[verifier::external_body]
fn draw_owner(seed: u64, count: usize) -> (r: Vec<OwnerScalar>)
    ensures
        r@.len() == count,
        forall|i: int| 0 <= i < count ==> (#[trigger] r@[i])@ == owner_draw(seed, i as nat),
{
    let mut rng = StdRng::seed_from_u64(seed);
    (0..count).map(|_| OwnerScalar { limbs: ark_mnt6_753::Fr::rand(&mut rng).into_bigint().0 })
        .collect()
}

/// The entry at `row` and `column` of a matrix of `rows` by `width` elements cut
/// from `draws`, row after row, starting at `offset`.
pub open spec fn cut_rows<F>(draws: Seq<F>, offset: int, rows: int, width: int, matrix: Seq<Vec<F>>) -> bool {
    &&& has_shape(matrix, rows, width)
    &&& forall|i: int, j: int|
        0 <= i < rows && 0 <= j < width ==> #[trigger] matrix[i]@[j] == draws[offset + width * i + j]
}

/// Cut `rows` rows of `width` elements each from `draws`, starting at `offset`.
fn rows_of<F: Copy>(draws: &Vec<F>, offset: usize, rows: usize, width: usize) -> (matrix: Vec<Vec<F>>)
    requires
        offset + rows * width <= draws@.len(),
    ensures
        cut_rows(draws@, offset as int, rows as int, width as int, matrix@),
{
    let mut matrix: Vec<Vec<F>> = Vec::new();
    let mut next: usize = offset;
    let mut i: usize = 0;
    while i < rows
        invariant
            i <= rows,
            matrix@.len() == i,
            next == offset + width * i,
            offset + rows * width <= draws@.len(),
            cut_rows(draws@, offset as int, i as int, width as int, matrix@),
        decreases rows - i,
    {
        let mut row: Vec<F> = Vec::new();
        let mut j: usize = 0;
        assert(next + width <= offset + rows * width) by (nonlinear_arith)
            requires
                next == offset + width * i,
                i < rows,
        ;
        while j < width
            invariant
                j <= width,
                draws@.len() == draws.len(),
                row@.len() == j,
                next == offset + width * i + j,
                offset + width * i + width <= draws@.len(),
                forall|k: int| 0 <= k < j ==> #[trigger] row@[k] == draws@[offset + width * i + k],
            decreases width - j,
        {
            row.push(draws[next]);
            next += 1;
            j += 1;
        }
        matrix.push(row);
        assert(width * (i + 1) == width * i + width) by (nonlinear_arith);
        i += 1;
    }
    matrix
}

/// Arrange drawn elements as Poseidon parameters: the round keys first, then
/// the mixing matrix.
pub fn config_from_draws<F: Copy>(draws: &Vec<F>) -> (config: PoseidonConfig<F>)
    requires
        draws@.len() == DRAWS,
    ensures
        config.well_formed(),
        config.full_rounds == FULL_ROUNDS,
        config.partial_rounds == PARTIAL_ROUNDS,
        config.alpha == ALPHA,
        config.rate == RATE,
        config.capacity == CAPACITY,
        cut_rows(draws@, 0, ROUNDS as int, WIDTH as int, config.ark@),
        cut_rows(draws@, 204, WIDTH as int, WIDTH as int, config.mds@),
{
    assert(ROUNDS * WIDTH == 204 && WIDTH * WIDTH == 9) by (nonlinear_arith);
    let ark = rows_of(draws, 0, ROUNDS, WIDTH);
    let mds = rows_of(draws, ROUNDS * WIDTH, WIDTH, WIDTH);
    PoseidonConfig {
        full_rounds: FULL_ROUNDS,
        partial_rounds: PARTIAL_ROUNDS,
        alpha: ALPHA,
        ark,
        mds,
        rate: RATE,
        capacity: CAPACITY,
    }
}

/// The matrix whose entry at row `i` and column `j` is the value drawn at
/// position `offset + 3 * i + j`.
pub open spec fn drawn_matrix(draw: spec_fn(nat) -> nat, offset: nat, rows: nat) -> Seq<Seq<nat>> {
    Seq::new(rows, |i: int| Seq::new(WIDTH as nat, |j: int| draw((offset + 3 * i + j) as nat)))
}

/// The round keys over the scalar field of MNT4-753.
pub open spec fn mnt4_ark() -> Seq<Seq<nat>> {
    drawn_matrix(|k: nat| fr_draw(MNT4_SEED, k), 0, ROUNDS as nat)
}

/// The mixing matrix over the scalar field of MNT4-753.
pub open spec fn mnt4_mds() -> Seq<Seq<nat>> {
    drawn_matrix(|k: nat| fr_draw(MNT4_SEED, k), 204, WIDTH as nat)
}

/// The Poseidon parameters over the scalar field of MNT4-753.
pub fn mnt4_753_fr_poseidon_config() -> (config: PoseidonConfig<Fr>)
    ensures
        config.well_formed(),
        config.full_rounds == FULL_ROUNDS,
        config.partial_rounds == PARTIAL_ROUNDS,
        config.alpha == ALPHA,
        config.rate == RATE,
        config.capacity == CAPACITY,
        matrix_values(config.ark@) == mnt4_ark(),
        matrix_values(config.mds@) == mnt4_mds(),
{
    let draws = draw_fr(MNT4_SEED, DRAWS);
    let config = config_from_draws(&draws);
    proof {
        assert forall|i: int| 0 <= i < config.ark@.len() implies matrix_values(config.ark@)[i]
            == #[trigger] mnt4_ark()[i] by {
            assert(matrix_values(config.ark@)[i] =~= mnt4_ark()[i]);
        }
        assert(matrix_values(config.ark@) =~= mnt4_ark());
        assert forall|i: int| 0 <= i < config.mds@.len() implies matrix_values(config.mds@)[i]
            == #[trigger] mnt4_mds()[i] by {
            assert(matrix_values(config.mds@)[i] =~= mnt4_mds()[i]);
        }
        assert(matrix_values(config.mds@) =~= mnt4_mds());
    }
    config
}

/// The Poseidon parameters over the scalar field of MNT6-753.
pub fn mnt6_753_fr_poseidon_config() -> (config: PoseidonConfig<OwnerScalar>)
    ensures
        config.well_formed(),
        config.full_rounds == FULL_ROUNDS,
        config.partial_rounds == PARTIAL_ROUNDS,
        config.alpha == ALPHA,
        config.rate == RATE,
        config.capacity == CAPACITY,
        forall|i: int, j: int|
            0 <= i < ROUNDS && 0 <= j < WIDTH ==> (#[trigger] config.ark@[i]@[j])@ == owner_draw(
                MNT6_SEED,
                (3 * i + j) as nat,
            ),
        forall|i: int, j: int|
            0 <= i < WIDTH && 0 <= j < WIDTH ==> (#[trigger] config.mds@[i]@[j])@ == owner_draw(
                MNT6_SEED,
                (204 + 3 * i + j) as nat,
            ),
{
    let draws = draw_owner(MNT6_SEED, DRAWS);
    config_from_draws(&draws)
}

/// The parameters over the scalar field of MNT4-753: eight full rounds and sixty partial ones,
/// the exponent five, a rate of two and a capacity of one. The round keys are the first 204
/// drawn elements, three to a row, and the mixing matrix the nine after them.
pub proof fn parameters_are_drawn_in_order(config: PoseidonConfig<Fr>, i: int, j: int)
    requires
        call_ensures(mnt4_753_fr_poseidon_config, (), config),
        0 <= j < 3,
    ensures
        config.full_rounds == 8,
        config.partial_rounds == 60,
        config.alpha == 5,
        config.rate == 2,
        config.capacity == 1,
        config.ark@.len() == 68,
        config.mds@.len() == 3,
        0 <= i < 68 ==> config.ark@[i]@.len() == 3 && config.ark@[i]@[j]@ == fr_draw(
            MNT4_SEED,
            (3 * i + j) as nat,
        ),
        0 <= i < 3 ==> config.mds@[i]@.len() == 3 && config.mds@[i]@[j]@ == fr_draw(
            MNT4_SEED,
            (204 + 3 * i + j) as nat,
        ),
{
    let ark = matrix_values(config.ark@);
    let mds = matrix_values(config.mds@);
    assert(ark.len() == config.ark@.len() && mds.len() == config.mds@.len());
    if 0 <= i < 68 {
        assert(ark[i] == field::fr_values(config.ark@[i]@));
        assert(ark[i][j] == mnt4_ark()[i][j]);
        assert(field::fr_values(config.ark@[i]@)[j] == config.ark@[i]@[j]@);
    }
    if 0 <= i < 3 {
        assert(mds[i] == field::fr_values(config.mds@[i]@));
        assert(mds[i][j] == mnt4_mds()[i][j]);
        assert(field::fr_values(config.mds@[i]@)[j] == config.mds@[i]@[j]@);
    }
}

} // verus!
