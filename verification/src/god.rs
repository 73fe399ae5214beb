//! The bookkeeping of the evolution of players: which population sizes are
//! accepted, how a population splits into finalists, elites, children and
//! immigrants, and the seed schedules of the fixed validation games and of the
//! holdout games that change with every generation.
use vstd::prelude::*;

use crate::game_2048::{advance, splitmix};

verus! {

pub const VALIDATION_GAME_COUNT: usize = 50;

pub const HOLDOUT_BATCH_COUNT: usize = 3;

pub const HOLDOUT_GAMES_PER_BATCH: usize = 20;

pub const ELITE_PERCENT: usize = 5;

pub const IMMIGRANT_PERCENT: usize = 5;

/// A population can be evolved when it has at least five players and a
/// multiple of five of them.
pub open spec fn valid_population_size(n: int) -> bool {
    n >= 5 && n % 5 == 0
}

/// Whether a population of `population_size` players can be evolved.
pub fn is_valid_population_size(population_size: usize) -> (ok: bool)
    ensures
        ok == valid_population_size(population_size as int),
{
    population_size >= 5 && population_size % 5 == 0
}

/// `percent` percent of `n`, rounded up, and at least one.
pub open spec fn share_of(n: int, percent: int) -> int {
    let q = (n * percent) / 100;
    let c = if (n * percent) % 100 == 0 {
        q
    } else {
        q + 1
    };
    if c < 1 {
        1
    } else {
        c
    }
}

/// A share is `percent` percent of `n` rounded up, and at least one: when the
/// product is positive, the share times a hundred reaches it and one share
/// fewer times a hundred falls short of it.
pub proof fn law_share_rounds_up(n: int, percent: int)
    requires
        n >= 0,
        percent >= 0,
    ensures
        share_of(n, percent) >= 1,
        n * percent > 0 ==> 100 * (share_of(n, percent) - 1) < n * percent <= 100 * share_of(n, percent),
        n * percent == 0 ==> share_of(n, percent) == 1,
{
    let x = n * percent;
    assert(x >= 0) by (nonlinear_arith)
        requires
            x == n * percent,
            n >= 0,
            percent >= 0,
    ;
    assert(x == 100 * (x / 100) + x % 100 && 0 <= x % 100 < 100);
}

/// The finalists of a population of `n` players: a fifth of them, and at
/// least one.
pub open spec fn finalists_of(n: int) -> int {
    if n / 5 < 1 {
        1
    } else {
        n / 5
    }
}

/// The numbers of one generation's selection: the finalists that play the
/// refinement games and parent the children, the elites carried over (the
/// all-time champion among them), the crossover children, and the fresh
/// immigrants.
#[derive(Debug, Clone, Copy, PartialEq, Eq)]
pub struct SelectionCounts {
    pub finalists: usize,
    pub elites: usize,
    pub children: usize,
    pub immigrants: usize,
}

/// `percent` percent of `n`, rounded up, and at least one.
fn share(n: usize, percent: usize) -> (c: usize)
    requires
        n * percent <= usize::MAX,
    ensures
        c == share_of(n as int, percent as int),
{
    let product = n * percent;
    let mut c = product / 100;
    if product % 100 != 0 {
        c = c + 1;
    }
    if c < 1 {
        1
    } else {
        c
    }
}

/// The selection numbers of a generation of `population_size` players.  The
/// elites, the children and the immigrants together make up the next
/// population, which keeps its size.
pub fn selection_counts(population_size: usize) -> (counts: SelectionCounts)
    requires
        valid_population_size(population_size as int),
        population_size * ELITE_PERCENT <= usize::MAX,
    ensures
        counts.finalists == finalists_of(population_size as int),
        counts.elites == share_of(population_size as int, ELITE_PERCENT as int),
        counts.immigrants == share_of(population_size as int, IMMIGRANT_PERCENT as int),
        counts.children == population_size - counts.elites - counts.immigrants,
        counts.elites + counts.children + counts.immigrants == population_size,
        1 <= counts.finalists <= population_size,
{
    let finalists = if population_size / 5 < 1 {
        1
    } else {
        population_size / 5
    };
    let elites = share(population_size, ELITE_PERCENT);
    let immigrants = share(population_size, IMMIGRANT_PERCENT);
    assert(elites <= population_size / 2 && immigrants <= population_size / 2) by (nonlinear_arith)
        requires
            population_size >= 5,
            elites == share_of(population_size as int, 5),
            immigrants == share_of(population_size as int, 5),
    ;
    SelectionCounts {
        finalists,
        elites,
        children: population_size - elites - immigrants,
        immigrants,
    }
}

/// One step of the linear congruential generator of the validation seeds.
pub open spec fn lcg_step(state: u64) -> u64 {
    vstd::wrapping::u64_specs::wrapping_add(
        vstd::wrapping::u64_specs::wrapping_mul(state, 6_364_136_223_846_793_005u64),
        1_442_695_040_888_963_407u64,
    )
}

/// The generator state after `n` steps from the validation start state.
pub open spec fn lcg_state(n: nat) -> u64
    decreases n,
{
    if n == 0 {
        0x0002_048A_11CE_5EEDu64
    } else {
        lcg_step(lcg_state((n - 1) as nat))
    }
}

/// `x` rotated left by `k` bits, `0 < k < 64`.
pub open spec fn rotl(x: u64, k: u64) -> u64 {
    (x << k) | (x >> (64 - k) as u64)
}

/// The start state of the holdout seeds of a generation and batch.
pub open spec fn holdout_start(generation: u64, batch: u64) -> u64 {
    0x2048_CAFE_BABE_5EEDu64 ^ rotl(generation, 17) ^ rotl(batch, 41)
}

/// The SplitMix64 state after `n` steps from `s`.
pub open spec fn advance_n(s: u64, n: nat) -> u64
    decreases n,
{
    if n == 0 {
        s
    } else {
        advance(advance_n(s, (n - 1) as nat))
    }
}

/// The fixed seeds of the validation games: the first fifty outputs of the
/// linear congruential generator.
pub fn validation_seeds() -> (seeds: [u64; VALIDATION_GAME_COUNT])
    ensures
        forall|i: int| 0 <= i < VALIDATION_GAME_COUNT ==> #[trigger] seeds[i] == lcg_state((i + 1) as nat),
{
    let mut seeds: [u64; VALIDATION_GAME_COUNT] = [0; VALIDATION_GAME_COUNT];
    let mut state: u64 = 0x0002_048A_11CE_5EED;
    let mut index: usize = 0;
    while index < VALIDATION_GAME_COUNT
        invariant
            index <= VALIDATION_GAME_COUNT,
            state == lcg_state(index as nat),
            forall|i: int| 0 <= i < index ==> #[trigger] seeds[i] == lcg_state((i + 1) as nat),
        decreases VALIDATION_GAME_COUNT - index,
    {
        state = state.wrapping_mul(6_364_136_223_846_793_005).wrapping_add(1_442_695_040_888_963_407);
        seeds[index] = state;
        index = index + 1;
    }
    seeds
}

/// `x` rotated left by `k` bits.
fn rotate_left(x: u64, k: u64) -> (y: u64)
    requires
        0 < k < 64,
    ensures
        y == rotl(x, k),
{
    (x << k) | (x >> (64 - k))
}

/// The seeds of one holdout batch: twenty SplitMix64 outputs from a start state
/// that mixes in the generation and the batch number.
pub fn rotating_holdout_seeds(generation: u64, batch: u64) -> (seeds: Vec<u64>)
    ensures
        seeds@.len() == HOLDOUT_GAMES_PER_BATCH,
        forall|i: int| 0 <= i < HOLDOUT_GAMES_PER_BATCH ==> #[trigger] seeds@[i] == splitmix(
            advance_n(holdout_start(generation, batch), (i + 1) as nat),
        ),
{
    let mut state = 0x2048_CAFE_BABE_5EED_u64 ^ rotate_left(generation, 17) ^ rotate_left(batch, 41);
    let ghost start = state;
    let mut seeds: Vec<u64> = Vec::new();
    let mut i: usize = 0;
    while i < HOLDOUT_GAMES_PER_BATCH
        invariant
            i <= HOLDOUT_GAMES_PER_BATCH,
            start == holdout_start(generation, batch),
            state == advance_n(start, i as nat),
            seeds@.len() == i,
            forall|j: int| 0 <= j < i ==> #[trigger] seeds@[j] == splitmix(advance_n(start, (j + 1) as nat)),
        decreases HOLDOUT_GAMES_PER_BATCH - i,
    {
        state = state.wrapping_add(0x9E37_79B9_7F4A_7C15);
        let mut value = state;
        value = (value ^ (value >> 30)).wrapping_mul(0xBF58_476D_1CE4_E5B9);
        value = (value ^ (value >> 27)).wrapping_mul(0x94D0_49BB_1331_11EB);
        seeds.push(value ^ (value >> 31));
        i = i + 1;
    }
    seeds
}

} // verus!
