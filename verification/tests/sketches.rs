use rand::SeedableRng;
use rand::rngs::StdRng;
use rand_distr::Geometric;
use stream_sketches::facs::FACS;
use stream_sketches::id_from_line;
use stream_sketches::nitro_cms::NitroCMS;
use stream_sketches::nitro_cuckoo::NitroCuckoo;
use stream_sketches::nitro_hash::NitroHash;
use stream_sketches::sampling::GeoSampler;
use stream_sketches::space_saving::SpaceSaving;

fn geo_sampler(p: f64, seed: u64) -> GeoSampler {
    GeoSampler::new(Geometric::new(p).unwrap(), StdRng::seed_from_u64(seed))
}

#[test]
fn nitro_cms_test_increment() {
    // confidence 0.95 and tolerance 0.02 size the sketch at 4 rows of 128
    // columns; sampling probability 0.1 gives an unbiasing factor of 10
    let mut cms = NitroCMS::new(128, 4, 10, true, Some(geo_sampler(0.1, 7)));
    for _ in 0..300_000 {
        cms.push(b"key", 1);
    }
    assert!(
        300_000u32.abs_diff(cms.get(b"key")) < 30_000,
        "key = {}",
        cms.get(b"key")
    );
}

#[test]
fn test_increment_multi() {
    // confidence 0.99 and tolerance 0.02 size the sketch at 6 rows of 128
    // columns; sampling probability 0.1 gives an unbiasing factor of 10
    let mut cms = NitroCMS::new(128, 6, 10, true, Some(geo_sampler(0.1, 11)));
    for i in 0..10_000_000u64 {
        let kb = (i % 100).to_le_bytes();
        cms.push(&kb, 1);
    }
    for key in 0..100u64 {
        let kb = key.to_le_bytes();
        assert!(cms.get(&kb) >= 90_000, "ACTUAL({}) = {}", key, cms.get(&kb));
    }
}

#[test]
fn nitro_cuckoo_test_increment() {
    const TEST_PROBABILITY: f64 = 0.01;
    const TEST_N_ITEMS: usize = 30_000;
    const TEST_ERROR_TOLERANCE: usize = 3_000;
    let sampler = GeoSampler::new(
        Geometric::new(TEST_PROBABILITY).unwrap(),
        StdRng::seed_from_u64(5),
    );
    let mut nitro_filter = NitroCuckoo::new(100, sampler);
    for _ in 1..=TEST_N_ITEMS {
        let _ = nitro_filter.add(b"key");
    }
    assert!(
        TEST_N_ITEMS.abs_diff(usize::try_from(nitro_filter.get(b"key")).unwrap())
            < TEST_ERROR_TOLERANCE,
        "DIFF nitro_filter = {}",
        nitro_filter.get(b"key")
    );
}

#[test]
fn nitro_hash_test_increment() {
    const TEST_PROBABILITY: f64 = 0.01;
    const TEST_N_ITEMS: usize = 30_000;
    const TEST_ERROR_TOLERANCE: usize = 3_000;
    let sampler = GeoSampler::new(
        Geometric::new(TEST_PROBABILITY).unwrap(),
        StdRng::seed_from_u64(3),
    );
    let mut nitrohash = NitroHash::new(100, sampler);
    for _ in 0..TEST_N_ITEMS {
        nitrohash.insert(b"key");
    }
    assert!(
        TEST_N_ITEMS.abs_diff(usize::try_from(nitrohash.get(b"key")).unwrap())
            < TEST_ERROR_TOLERANCE,
        "DIFF nitrohash = {}",
        nitrohash.get(b"key")
    );
}

#[test]
fn space_saving_test_increment() {
    const TEST_ERROR: f64 = 0.01;
    const TEST_N_ITEMS: usize = 30_000;
    const TEST_ERROR_TOLERANCE: usize = 400;
    let capacity = (1.0 / TEST_ERROR).round() as usize;
    let mut spacesaving = SpaceSaving::new(capacity, false, StdRng::seed_from_u64(1));
    for _ in 0..TEST_N_ITEMS {
        spacesaving.insert(b"key");
    }
    assert!(
        TEST_N_ITEMS.abs_diff(usize::try_from(spacesaving.get(b"key")).unwrap())
            < TEST_ERROR_TOLERANCE,
        "DIFF spacesaving = {}",
        spacesaving.get(b"key")
    );
}

#[test]
fn test_rap_increment() {
    const TEST_ERROR: f64 = 0.01;
    const TEST_N_ITEMS: usize = 30_000;
    const TEST_ERROR_TOLERANCE: usize = 400;
    let capacity = (1.0 / TEST_ERROR).round() as usize;
    let mut spacesaving = SpaceSaving::new(capacity, true, StdRng::seed_from_u64(2));
    for _ in 0..TEST_N_ITEMS {
        spacesaving.insert(b"key");
    }
    assert!(
        TEST_N_ITEMS.abs_diff(usize::try_from(spacesaving.get(b"key")).unwrap())
            < TEST_ERROR_TOLERANCE,
        "DIFF spacesaving = {}",
        spacesaving.get(b"key")
    );
}

#[test]
fn facs_test_increment() {
    const TEST_N_ITEMS: usize = 1_000_000;
    const TEST_ERROR_TOLERANCE: usize = 1;
    let id = id_from_line("1 2 3 4 5 6 7 8");
    let mut facs = FACS::new();
    for _ in 0..TEST_N_ITEMS {
        facs.insert(id);
    }
    assert!(
        TEST_N_ITEMS.abs_diff(usize::try_from(facs.get(id)).unwrap()) < TEST_ERROR_TOLERANCE,
        "DIFF facs = {}",
        facs.get(id)
    );
}
