use vstd::prelude::*;
use crate::biome::TerrainSample;
use crate::fixed::{clamp, floor_div, normalize_noise, normalize_spec, UNIT};
use crate::geometry::ConfigError;

verus! {

/// Offset between the moisture seed and the temperature seed.
pub const TEMPERATURE_SEED_OFFSET: u32 = 12345;
/// Largest accepted redistribution exponent, in quarters.
pub const MAX_POW_QUARTERS: u32 = 12;

/// Configuration of one world generation run. Real-valued parameters are
/// fixed point in units of `1 / UNIT`; the redistribution exponent is in
/// quarters (`7` stands for `1.75`).
#[derive(Debug, PartialEq, Eq, Structural, Clone, Copy)]
pub struct OverWorldMapConfig {
    pub e_seed: i32,
    pub m_seed: i32,
    pub frequency: u32,
    pub octaves: u32,
    pub lacunarity: u32,
    pub persistance: u32,
    pub amplitude: u32,
    pub pow_quarters: u32,
}

/// The pair of seeds of a map: one for elevation, one for moisture.
#[derive(Debug, PartialEq, Eq, Structural, Clone, Copy)]
pub struct MapSeed {
    pub map_elevation_seed: i32,
    pub map_moisture_seed: i32,
}

/// Relies on rand::random: a seed drawn from the thread-local generator.
/// Nothing is promised of its value.
#[verifier::external_body]
fn random_seed() -> (r: i32) {
    rand::random::<i32>()
}

impl Default for MapSeed {
    /// A fresh pair of random seeds.
    fn default() -> (r: MapSeed) {
        let map_elevation_seed = random_seed();
        let map_moisture_seed = random_seed();
        MapSeed { map_elevation_seed, map_moisture_seed }
    }
}

impl OverWorldMapConfig {
    /// The standard tuning (frequency 2.5, five octaves, lacunarity 0.7,
    /// persistence 2.0, amplitude 0.5, exponent 1.75) with the given seeds.
    pub fn with_seeds(e_seed: i32, m_seed: i32) -> (r: OverWorldMapConfig)
        ensures
            r.e_seed == e_seed && r.m_seed == m_seed,
            r.frequency == 2500 && r.octaves == 5 && r.lacunarity == 700,
            r.persistance == 2000 && r.amplitude == 500 && r.pow_quarters == 7,
            r.valid(),
    {
        OverWorldMapConfig {
            e_seed,
            m_seed,
            frequency: 2500,
            octaves: 5,
            lacunarity: 700,
            persistance: 2000,
            amplitude: 500,
            pow_quarters: 7,
        }
    }

    /// At least one octave, and an exponent in `1/4 ..= 12/4`.
    pub open spec fn valid(self) -> bool {
        self.octaves > 0 && 1 <= self.pow_quarters <= MAX_POW_QUARTERS
    }

    /// Checks the configuration before any generation begins.
    pub fn validate(&self) -> (r: Result<(), ConfigError>)
        ensures
            self.octaves == 0 ==> r == Err::<(), ConfigError>(ConfigError::ZeroOctaves),
            self.octaves > 0 && !(1 <= self.pow_quarters <= MAX_POW_QUARTERS) ==> r == Err::<
                (),
                ConfigError,
            >(ConfigError::ExponentOutOfRange),
            self.valid() ==> r == Ok::<(), ConfigError>(()),
    {
        if self.octaves == 0 {
            return Err(ConfigError::ZeroOctaves);
        }
        if self.pow_quarters < 1 || self.pow_quarters > MAX_POW_QUARTERS {
            return Err(ConfigError::ExponentOutOfRange);
        }
        Ok(())
    }

    /// Seed of the temperature field: the moisture seed, read unsigned, plus
    /// a fixed offset, wrapping.
    pub fn temperature_seed(&self) -> (r: u32)
        ensures
            r as int == ((self.m_seed as u32) as int + TEMPERATURE_SEED_OFFSET) % 0x1_0000_0000,
    {
        (self.m_seed as u32).wrapping_add(TEMPERATURE_SEED_OFFSET)
    }
}

impl Default for OverWorldMapConfig {
    /// The standard tuning with freshly drawn random seeds.
    fn default() -> (r: OverWorldMapConfig)
        ensures
            r.frequency == 2500 && r.octaves == 5 && r.lacunarity == 700,
            r.persistance == 2000 && r.amplitude == 500 && r.pow_quarters == 7,
            r.valid(),
    {
        let seeds = MapSeed::default();
        OverWorldMapConfig::with_seeds(seeds.map_elevation_seed, seeds.map_moisture_seed)
    }
}

/// `b` to the power `n`.
pub open spec fn power(b: int, n: nat) -> int
    decreases n,
{
    if n == 0 {
        1
    } else {
        b * power(b, (n - 1) as nat)
    }
}

/// Whether `r / UNIT` is at most `(e / UNIT)` to the power `p / 4`, that is
/// `r^4 * UNIT^p <= e^p * UNIT^4`.
pub open spec fn fits(r: int, e: int, p: nat) -> bool {
    power(r, 4) * power(UNIT as int, p) <= power(e, p) * power(UNIT as int, 4)
}

/// `r` is `UNIT * (e / UNIT)^(p / 4)` rounded down: the largest value in
/// `[0, UNIT]` that fits.
pub open spec fn is_redistributed(e: int, p: nat, r: int) -> bool {
    0 <= r <= UNIT && fits(r, e, p) && (r == UNIT || !fits(r + 1, e, p))
}

/// Elevation `e` raised to the power `p / 4`, in fixed point.
pub open spec fn redistribute_spec(e: int, p: nat) -> int {
    choose|r: int| is_redistributed(e, p, r)
}

proof fn lemma_power_nonneg(b: int, n: nat)
    requires
        0 <= b,
    ensures
        0 <= power(b, n),
    decreases n,
{
    if n > 0 {
        lemma_power_nonneg(b, (n - 1) as nat);
        assert(0 <= b * power(b, (n - 1) as nat)) by (nonlinear_arith)
            requires 0 <= b, 0 <= power(b, (n - 1) as nat);
    }
}

proof fn lemma_power_base_monotone(a: int, b: int, n: nat)
    requires
        0 <= a <= b,
    ensures
        power(a, n) <= power(b, n),
    decreases n,
{
    if n > 0 {
        lemma_power_base_monotone(a, b, (n - 1) as nat);
        lemma_power_nonneg(a, (n - 1) as nat);
        let pa = power(a, (n - 1) as nat);
        let pb = power(b, (n - 1) as nat);
        assert(a * pa <= b * pb) by (nonlinear_arith)
            requires 0 <= a <= b, 0 <= pa <= pb;
    }
}

proof fn lemma_power_add(b: int, m: nat, n: nat)
    ensures
        power(b, m + n) == power(b, m) * power(b, n),
    decreases m,
{
    if m > 0 {
        lemma_power_add(b, (m - 1) as nat, n);
        assert(power(b, m + n) == b * power(b, (m - 1 + n) as nat));
        assert(b * (power(b, (m - 1) as nat) * power(b, n)) == (b * power(b, (m - 1) as nat))
            * power(b, n)) by (nonlinear_arith);
    }
}

proof fn lemma_power_positive(b: int, n: nat)
    requires
        0 < b,
    ensures
        0 < power(b, n),
    decreases n,
{
    if n > 0 {
        lemma_power_positive(b, (n - 1) as nat);
        assert(0 < b * power(b, (n - 1) as nat)) by (nonlinear_arith)
            requires 0 < b, 0 < power(b, (n - 1) as nat);
    }
}

/// At most one value is the redistributed elevation.
proof fn lemma_redistributed_unique(e: int, p: nat, r1: int, r2: int)
    requires
        is_redistributed(e, p, r1),
        is_redistributed(e, p, r2),
    ensures
        r1 == r2,
{
    if r1 < r2 {
        lemma_power_base_monotone(r1 + 1, r2, 4);
        lemma_power_nonneg(UNIT as int, p);
        let u = power(UNIT as int, p);
        assert(power(r1 + 1, 4) * u <= power(r2, 4) * u) by (nonlinear_arith)
            requires power(r1 + 1, 4) <= power(r2, 4), 0 <= u;
    } else if r2 < r1 {
        lemma_power_base_monotone(r2 + 1, r1, 4);
        lemma_power_nonneg(UNIT as int, p);
        let u = power(UNIT as int, p);
        assert(power(r2 + 1, 4) * u <= power(r1, 4) * u) by (nonlinear_arith)
            requires power(r2 + 1, 4) <= power(r1, 4), 0 <= u;
    }
}

/// `b^n` for a base of at most `UNIT` and an exponent of at most 12.
fn power_u128(b: u128, n: u32) -> (r: u128)
    requires
        b <= UNIT,
        n <= MAX_POW_QUARTERS,
    ensures
        r == power(b as int, n as nat),
        r <= power(UNIT as int, MAX_POW_QUARTERS as nat),
{
    proof {
        reveal_with_fuel(power, 13);
        assert(power(UNIT as int, 12) == 1_000_000_000_000_000_000_000_000_000_000_000_000int);
    }
    let mut acc: u128 = 1;
    let mut i: u32 = 0;
    while i < n
        invariant
            b <= UNIT,
            i <= n <= MAX_POW_QUARTERS,
            acc == power(b as int, i as nat),
            power(UNIT as int, 12) == 1_000_000_000_000_000_000_000_000_000_000_000_000int,
        decreases n - i,
    {
        proof {
            lemma_power_base_monotone(b as int, UNIT as int, (i + 1) as nat);
            lemma_power_add(UNIT as int, (i + 1) as nat, (12 - i - 1) as nat);
            lemma_power_positive(UNIT as int, (12 - i - 1) as nat);
            let big = power(UNIT as int, (i + 1) as nat);
            let rest = power(UNIT as int, (12 - i - 1) as nat);
            assert(big <= big * rest) by (nonlinear_arith)
                requires 0 < rest, 0 <= big;
            assert(b * acc == power(b as int, (i + 1) as nat));
        }
        acc = b * acc;
        i = i + 1;
    }
    proof {
        lemma_power_base_monotone(b as int, UNIT as int, n as nat);
        lemma_power_add(UNIT as int, n as nat, (12 - n) as nat);
        lemma_power_positive(UNIT as int, (12 - n) as nat);
        let big = power(UNIT as int, n as nat);
        let rest = power(UNIT as int, (12 - n) as nat);
        assert(big <= big * rest) by (nonlinear_arith)
            requires 0 < rest, 0 <= big;
    }
    acc
}

proof fn lemma_power_unit_bound(n: nat)
    requires
        n <= 12,
    ensures
        0 < power(UNIT as int, n) <= power(UNIT as int, 12),
{
    lemma_power_add(UNIT as int, n, (12 - n) as nat);
    lemma_power_positive(UNIT as int, (12 - n) as nat);
    lemma_power_positive(UNIT as int, n);
    let big = power(UNIT as int, n);
    let rest = power(UNIT as int, (12 - n) as nat);
    assert(big <= big * rest) by (nonlinear_arith)
        requires 0 < rest, 0 <= big;
}

/// Whether `r` fits under `e` raised to `p / 4` (see [`fits`]).
fn fits_exec(r: u32, e: u32, p: u32) -> (b: bool)
    requires
        r <= UNIT,
        e <= UNIT,
        1 <= p <= MAX_POW_QUARTERS,
    ensures
        b == fits(r as int, e as int, p as nat),
{
    proof {
        reveal_with_fuel(power, 13);
        assert(power(UNIT as int, 12) == 1_000_000_000_000_000_000_000_000_000_000_000_000int);
        lemma_power_base_monotone(r as int, UNIT as int, 4);
        lemma_power_nonneg(r as int, 4);
        lemma_power_nonneg(e as int, p as nat);
        lemma_power_unit_bound(4);
    }
    let r4 = power_u128(r as u128, 4);
    let ep = power_u128(e as u128, p);
    let u4 = power_u128(UNIT as u128, 4);
    if p >= 4 {
        let up = power_u128(UNIT as u128, p - 4);
        proof {
            lemma_power_add(UNIT as int, 4, (p - 4) as nat);
            lemma_power_unit_bound(p as nat);
            lemma_power_nonneg(UNIT as int, (p - 4) as nat);
            assert(r4 * up <= u4 * up) by (nonlinear_arith)
                requires r4 <= u4, 0 <= up;
            let lhs = r4 * up;
            assert(fits(r as int, e as int, p as nat) == (lhs * u4 <= ep * u4)) by {
                assert(power(UNIT as int, p as nat) == u4 * up);
                assert(r4 * (u4 * up) == lhs * u4) by (nonlinear_arith)
                    requires lhs == r4 * up;
            }
            assert((lhs * u4 <= ep * u4) == (lhs <= ep)) by (nonlinear_arith)
                requires 0 < u4;
        }
        r4 * up <= ep
    } else {
        let up = power_u128(UNIT as u128, 4 - p);
        proof {
            lemma_power_add(UNIT as int, p as nat, (4 - p) as nat);
            lemma_power_unit_bound(p as nat);
            lemma_power_nonneg(UNIT as int, (4 - p) as nat);
            lemma_power_base_monotone(e as int, UNIT as int, p as nat);
            let upp = power(UNIT as int, p as nat);
            assert(ep * up <= upp * up) by (nonlinear_arith)
                requires ep <= upp, 0 <= up;
            let rhs = ep * up;
            assert(fits(r as int, e as int, p as nat) == (r4 * upp <= rhs * upp)) by {
                assert(u4 == upp * up);
                assert(ep * (upp * up) == rhs * upp) by (nonlinear_arith)
                    requires rhs == ep * up;
            }
            assert((r4 * upp <= rhs * upp) == (r4 <= rhs)) by (nonlinear_arith)
                requires 0 < upp;
        }
        r4 <= ep * up
    }
}

/// Power redistribution of a normalized elevation: `UNIT * (e / UNIT)^(p / 4)`
/// rounded down. Exponents above 1 flatten the lowlands and sharpen peaks.
pub fn redistribute(e: u32, p: u32) -> (r: u32)
    requires
        e <= UNIT,
        1 <= p <= MAX_POW_QUARTERS,
    ensures
        is_redistributed(e as int, p as nat, r as int),
        r == redistribute_spec(e as int, p as nat),
{
    let mut lo: u32 = 0;
    let mut hi: u32 = UNIT;
    proof {
        lemma_power_nonneg(e as int, p as nat);
        lemma_power_positive(UNIT as int, 4);
        assert(power(0, 4) == 0) by {
            reveal_with_fuel(power, 5);
        }
        assert(0 <= power(e as int, p as nat) * power(UNIT as int, 4)) by (nonlinear_arith)
            requires 0 <= power(e as int, p as nat), 0 < power(UNIT as int, 4);
    }
    while lo < hi
        invariant
            e <= UNIT,
            1 <= p <= MAX_POW_QUARTERS,
            lo <= hi <= UNIT,
            fits(lo as int, e as int, p as nat),
            hi == UNIT || !fits(hi + 1, e as int, p as nat),
        decreases hi - lo,
    {
        let mid = lo + (hi - lo + 1) / 2;
        if fits_exec(mid, e, p) {
            lo = mid;
        } else {
            hi = mid - 1;
        }
    }
    proof {
        lemma_redistributed_unique(
            e as int,
            p as nat,
            lo as int,
            redistribute_spec(e as int, p as nat),
        );
    }
    lo
}

/// Raw noise values for one tile, fixed point (`UNIT` stands for 1.0, the
/// noise's nominal range is `[-UNIT, UNIT]`): the elevation field at 1x, 2x
/// and 4x scale (after domain warping), the moisture field and the
/// temperature field.
#[derive(Debug, PartialEq, Eq, Structural, Clone, Copy)]
pub struct NoiseReadings {
    pub elevation: i32,
    pub elevation_2x: i32,
    pub elevation_4x: i32,
    pub moisture: i32,
    pub temperature: i32,
}

/// The three elevation scales weighted 1, 1/2 and 1/4 and divided by the
/// total weight, rounded down.
pub open spec fn blend_spec(r: NoiseReadings) -> int {
    (4 * r.elevation + 2 * r.elevation_2x + r.elevation_4x) / 7
}

/// Normalized, redistributed elevation.
pub open spec fn elevation_spec(r: NoiseReadings, p: nat) -> int {
    redistribute_spec(normalize_spec(blend_spec(r)), p)
}

/// Moisture: 70% noise, 30% lowness, so valleys are wetter.
pub open spec fn moisture_spec(r: NoiseReadings, e: int) -> int {
    (7 * normalize_spec(r.moisture as int) + 3 * (UNIT - e)) / 10
}

/// Latitude warmth, `1 - |world_y / world_height - 1/2|` clamped to
/// `[0, 1]`: 1 on the equator (the middle row), falling linearly to 1/2 at
/// the top and bottom rows (the poles), rounded down.
pub open spec fn latitude_spec(world_y: int, world_height: int) -> int {
    let d = 2 * world_y - world_height;
    let a = if d < 0 {
        -d
    } else {
        d
    };
    clamp(UNIT - a * UNIT / (2 * world_height), 0, UNIT as int)
}

/// Temperature: latitude, plus 12% noise, minus half the elevation, clamped.
pub open spec fn temperature_spec(r: NoiseReadings, e: int, lat: int) -> int {
    clamp(lat + normalize_spec(r.temperature as int) * 12 / 100 - e / 2, 0, UNIT as int)
}

/// The terrain sample of a tile at world row `world_y` with these readings.
pub open spec fn compose_spec(
    config: OverWorldMapConfig,
    world_y: int,
    world_height: int,
    r: NoiseReadings,
) -> TerrainSample {
    let e = elevation_spec(r, config.pow_quarters as nat);
    TerrainSample {
        elevation: e as u32,
        moisture: moisture_spec(r, e) as u32,
        temperature: temperature_spec(r, e, latitude_spec(world_y, world_height)) as u32,
    }
}

/// Combines the noise readings of the tile at world row `world_y` into its
/// terrain sample: blended, normalized and redistributed elevation; moisture
/// coupled to lowness; temperature from latitude, noise and elevation.
pub fn compose_sample(
    config: &OverWorldMapConfig,
    world_y: i64,
    world_height: u32,
    readings: &NoiseReadings,
) -> (s: TerrainSample)
    requires
        config.valid(),
        world_height > 0,
    ensures
        s == compose_spec(*config, world_y as int, world_height as int, *readings),
        s.wf(),
{
    let sum: i64 = 4 * (readings.elevation as i64) + 2 * (readings.elevation_2x as i64)
        + (readings.elevation_4x as i64);
    let blended: i64 = floor_div(sum, 7);
    proof {
        assert(i32::MIN <= blended <= i32::MAX) by (nonlinear_arith)
            requires blended == sum / 7, 7 * i32::MIN <= sum <= 7 * i32::MAX;
    }
    let e_lin = normalize_noise(blended as i32);
    let e = redistribute(e_lin, config.pow_quarters);
    let m_norm = normalize_noise(readings.moisture);
    let m: u32 = (7 * m_norm + 3 * (UNIT - e)) / 10;
    // Distance from the equator, in half rows.
    let d: i128 = 2 * (world_y as i128) - (world_height as i128);
    let a: u128 = if d < 0 {
        (-d) as u128
    } else {
        d as u128
    };
    proof {
        assert(a <= 0x2_0000_0000_0000_0000u128);
        assert(a * UNIT <= 0x2_0000_0000_0000_0000u128 * 1000) by (nonlinear_arith)
            requires a <= 0x2_0000_0000_0000_0000u128;
    }
    let q: u128 = a * (UNIT as u128) / (2 * (world_height as u128));
    let lat: u32 = if q >= UNIT as u128 {
        0
    } else {
        UNIT - q as u32
    };
    let t_norm = normalize_noise(readings.temperature);
    let warm: i64 = lat as i64 + (t_norm as i64) * 12 / 100 - (e as i64) / 2;
    let t: u32 = if warm < 0 {
        0
    } else if warm > UNIT as i64 {
        UNIT
    } else {
        warm as u32
    };
    TerrainSample { elevation: e, moisture: m, temperature: t }
}

/// Sampling is deterministic: for a fixed configuration, the same tile row
/// and the same noise readings give the identical sample, every time.
pub proof fn lemma_sampling_deterministic(
    config: OverWorldMapConfig,
    world_y: int,
    world_height: int,
    readings: NoiseReadings,
    first: TerrainSample,
    second: TerrainSample,
)
    requires
        first == compose_spec(config, world_y, world_height, readings),
        second == compose_spec(config, world_y, world_height, readings),
    ensures
        first == second,
{
}

} // verus!
