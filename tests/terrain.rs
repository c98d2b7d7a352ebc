use noise::{Blend, Fbm, MultiFractal, NoiseFn, OpenSimplex, RidgedMulti};
use void_terrain::{
    compose_sample, redistribute, ConfigError, MapSeed, NoiseReadings, OverWorldMapConfig,
    TerrainSample, UNIT,
};

fn readings(e: i32, e2: i32, e4: i32, m: i32, t: i32) -> NoiseReadings {
    NoiseReadings { elevation: e, elevation_2x: e2, elevation_4x: e4, moisture: m, temperature: t }
}

fn config(pow_quarters: u32) -> OverWorldMapConfig {
    let mut c = OverWorldMapConfig::with_seeds(42, 7);
    c.pow_quarters = pow_quarters;
    c
}

#[test]
fn redistribute_exact_values() {
    assert_eq!(redistribute(0, 7), 0);
    assert_eq!(redistribute(1000, 7), 1000);
    assert_eq!(redistribute(500, 4), 500);
    assert_eq!(redistribute(500, 8), 250);
    assert_eq!(redistribute(250, 2), 500);
    assert_eq!(redistribute(500, 7), 297);
    assert_eq!(redistribute(1000, 12), 1000);
    assert_eq!(redistribute(100, 12), 1);
}

#[test]
fn redistribute_lowers_midlands_for_exponents_above_one() {
    for e in (0..=UNIT).step_by(10) {
        assert!(redistribute(e, 7) <= e);
        assert!(redistribute(e, 2) >= e);
    }
}

#[test]
fn compose_flat_noise() {
    let s = compose_sample(&config(4), 0, 24, &readings(0, 0, 0, 0, 0));
    assert_eq!(s, TerrainSample { elevation: 500, moisture: 500, temperature: 310 });
    let s = compose_sample(&config(7), 0, 24, &readings(0, 0, 0, 0, 0));
    assert_eq!(s, TerrainSample { elevation: 297, moisture: 560, temperature: 412 });
}

#[test]
fn compose_latitude_is_warmest_at_the_equator() {
    let flat = readings(0, 0, 0, 0, 0);
    assert_eq!(compose_sample(&config(4), 12, 24, &flat).temperature, 810);
    assert_eq!(compose_sample(&config(4), 6, 24, &flat).temperature, 560);
    assert_eq!(compose_sample(&config(4), 18, 24, &flat).temperature, 560);
    assert_eq!(compose_sample(&config(4), 0, 24, &flat).temperature, 310);
    assert_eq!(compose_sample(&config(4), 24, 24, &flat).temperature, 310);
    assert_eq!(compose_sample(&config(4), -12, 24, &flat).temperature, 0);
    assert_eq!(compose_sample(&config(4), -30, 24, &flat).temperature, 0);
}

#[test]
fn compose_equator_lowland_with_hot_noise_is_fully_warm() {
    let s = compose_sample(&config(7), 12, 24, &readings(-1000, -1000, -1000, 0, 1000));
    assert_eq!(s.elevation, 0);
    assert_eq!(s.temperature, 1000);
}

#[test]
fn compose_extremes_and_rounding() {
    let s = compose_sample(&config(7), 0, 24, &readings(-1000, -1000, -1000, 1000, 0));
    assert_eq!(s.elevation, 0);
    assert_eq!(s.moisture, 1000);
    let s = compose_sample(&config(4), 0, 24, &readings(-1, 0, 0, 0, 0));
    assert_eq!(s.elevation, 499);
    let s = compose_sample(&config(4), 0, 24, &readings(1000, 1000, 1000, -1000, 1000));
    assert_eq!(s, TerrainSample { elevation: 1000, moisture: 0, temperature: 120 });
}

#[test]
fn standard_config_values() {
    let c = OverWorldMapConfig::with_seeds(42, -5);
    assert_eq!(c.e_seed, 42);
    assert_eq!(c.m_seed, -5);
    assert_eq!(c.frequency, 2500);
    assert_eq!(c.octaves, 5);
    assert_eq!(c.lacunarity, 700);
    assert_eq!(c.persistance, 2000);
    assert_eq!(c.amplitude, 500);
    assert_eq!(c.pow_quarters, 7);
    assert_eq!(c.validate(), Ok(()));
    let d = OverWorldMapConfig::default();
    assert_eq!(d.octaves, 5);
    assert_eq!(d.validate(), Ok(()));
    let _ = MapSeed::default();
}

#[test]
fn config_errors() {
    let mut c = OverWorldMapConfig::with_seeds(1, 2);
    c.octaves = 0;
    assert_eq!(c.validate(), Err(ConfigError::ZeroOctaves));
    let mut c = OverWorldMapConfig::with_seeds(1, 2);
    c.pow_quarters = 0;
    assert_eq!(c.validate(), Err(ConfigError::ExponentOutOfRange));
    c.pow_quarters = 13;
    assert_eq!(c.validate(), Err(ConfigError::ExponentOutOfRange));
    c.pow_quarters = 12;
    assert_eq!(c.validate(), Ok(()));
}

#[test]
fn temperature_seed_wraps() {
    assert_eq!(OverWorldMapConfig::with_seeds(0, 0).temperature_seed(), 12345);
    assert_eq!(OverWorldMapConfig::with_seeds(0, -1).temperature_seed(), 12344);
    assert_eq!(OverWorldMapConfig::with_seeds(0, 100).temperature_seed(), 12445);
}

fn quantize(v: f64) -> i32 {
    (v * UNIT as f64).round() as i32
}

/// Noise readings for world tile `(wx, wy)` of a 32 x 24 world.
fn sample_tile(c: &OverWorldMapConfig, wx: i64, wy: i64) -> TerrainSample {
    let seed = c.e_seed as u32;
    let frequency = c.frequency as f64 / UNIT as f64;
    let persistence = c.persistance as f64 / UNIT as f64;
    let lacunarity = c.lacunarity as f64 / UNIT as f64;
    let fbm = || {
        Fbm::<OpenSimplex>::new(seed)
            .set_octaves(c.octaves as usize)
            .set_frequency(frequency)
            .set_persistence(persistence)
            .set_lacunarity(lacunarity)
    };
    let e_noise: Blend<f64, _, _, _, 2> =
        Blend::new(OpenSimplex::new(seed), RidgedMulti::<OpenSimplex>::new(seed), fbm());
    let warp_noise = fbm();
    let m_noise = OpenSimplex::new(c.m_seed as u32);
    let t_noise = OpenSimplex::new(c.temperature_seed());
    let nx = wx as f64 / 32.0 - 0.5;
    let ny = wy as f64 / 24.0 - 0.5;
    let warp = warp_noise.get([nx * 2.0, ny * 2.0]) * 0.08;
    let (wxn, wyn) = (nx + warp, ny + warp);
    let r = NoiseReadings {
        elevation: quantize(e_noise.get([wxn, wyn])),
        elevation_2x: quantize(e_noise.get([2.0 * wxn, 2.0 * wyn])),
        elevation_4x: quantize(e_noise.get([4.0 * wxn, 4.0 * wyn])),
        moisture: quantize(m_noise.get([nx * 1.5, ny * 1.5])),
        temperature: quantize(t_noise.get([nx * 2.0, ny * 2.0])),
    };
    compose_sample(c, wy, 24, &r)
}

#[test]
fn sampling_is_deterministic_and_varies_between_tiles() {
    let c = OverWorldMapConfig::with_seeds(42, 42);
    assert_eq!(c.pow_quarters, 7);
    let first = sample_tile(&c, 0, 0);
    let again = sample_tile(&c, 0, 0);
    assert_eq!(first, again);
    let next = sample_tile(&c, 1, 0);
    assert_ne!(first, next);
}
