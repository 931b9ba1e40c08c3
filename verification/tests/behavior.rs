use rand::SeedableRng;
use rand::rngs::StdRng;
use rand_distr::Geometric;
use stream_sketches::FlowId;
use stream_sketches::cuckoo::CuckooCountingFilter;
use stream_sketches::cuckoo::CuckooError;
use stream_sketches::facs::FACS;
use stream_sketches::hashing::next_pow2;
use stream_sketches::id_from_line;
use stream_sketches::nitro_cms::NitroCMS;
use stream_sketches::nitro_hash::NitroHash;
use stream_sketches::preprocess_contents;
use stream_sketches::sampling::GeoSampler;
use stream_sketches::space_saving::SpaceSaving;
use stream_sketches::space_saving_by_hash::SpaceSaving as SpaceSavingByHash;

fn geo_sampler(p: f64, seed: u64) -> GeoSampler {
    GeoSampler::new(Geometric::new(p).unwrap(), StdRng::seed_from_u64(seed))
}

#[test]
fn id_from_line_parses_octets() {
    let id = id_from_line("1 2 3 4 5 6 7 8");
    assert_eq!(id.src, 0x0102_0304);
    assert_eq!(id.dst, 0x0506_0708);
}

#[test]
fn id_from_line_defaults_missing_and_bad_tokens_to_zero() {
    let id = id_from_line("");
    assert_eq!(id, FlowId { src: 0, dst: 0 });
    let id = id_from_line("256 2 x 4");
    assert_eq!(id.src, 0x0002_0004);
    assert_eq!(id.dst, 0);
    let id = id_from_line("+9 0 0 1");
    assert_eq!(id.src, 0x0900_0001);
}

#[test]
fn preprocess_splits_lines() {
    let ids = preprocess_contents("1 2 3 4 5 6 7 8\n9 8 7 6 5 4 3 2\n");
    assert_eq!(ids.len(), 2);
    assert_eq!(ids[0].src, 0x0102_0304);
    assert_eq!(ids[1].dst, 0x0504_0302);
    let ids = preprocess_contents("");
    assert_eq!(ids.len(), 0);
}

#[test]
fn next_pow2_exact_values() {
    assert_eq!(next_pow2(0), 1);
    assert_eq!(next_pow2(1), 1);
    assert_eq!(next_pow2(2), 2);
    assert_eq!(next_pow2(3), 4);
    assert_eq!(next_pow2(100), 128);
    assert_eq!(next_pow2(1024), 1024);
}

#[test]
fn cms_unsampled_counts_exactly_one_key() {
    let mut cms = NitroCMS::new(128, 4, 1, true, None);
    for _ in 0..5 {
        cms.push(b"alpha", 1);
    }
    assert_eq!(cms.get(b"alpha"), 5);
    assert_eq!(cms.get(b"beta"), 0);
}

#[test]
fn cms_one_sided_error_many_keys() {
    // a deliberately tiny sketch so keys collide: estimates may only
    // overshoot the true counts, never undershoot
    let mut cms = NitroCMS::new(2, 1, 1, true, None);
    for i in 0..50u32 {
        let kb = i.to_le_bytes();
        for _ in 0..(i % 5) + 1 {
            cms.push(&kb, 1);
        }
    }
    for i in 0..50u32 {
        let kb = i.to_le_bytes();
        assert!(cms.get(&kb) >= (i % 5) + 1, "undershoot at {}", i);
    }
}

#[test]
fn cms_union_assign_raises_cells() {
    let mut cms = NitroCMS::new(128, 4, 1, false, None);
    cms.push(b"k", 3);
    cms.union_assign(b"k", 10);
    assert_eq!(cms.get(b"k"), 10);
    cms.union_assign(b"k", 4);
    assert_eq!(cms.get(b"k"), 10);
}

#[test]
fn cms_clear_forgets_everything() {
    let mut cms = NitroCMS::new(128, 2, 1, true, None);
    cms.push(b"x", 7);
    cms.clear();
    assert_eq!(cms.get(b"x"), 0);
    assert_eq!(cms.estimate_memory_size(), 2 * 128 * 4);
}

#[test]
fn cms_fixed_seed_runs_identically() {
    let keys: Vec<[u8; 4]> = (0..40u32).map(|i| (i % 7).to_le_bytes()).collect();
    let mut a = NitroCMS::new(64, 3, 10, true, Some(geo_sampler(0.1, 99)));
    let mut b = NitroCMS::new(64, 3, 10, true, Some(geo_sampler(0.1, 99)));
    for _ in 0..1000 {
        for k in &keys {
            a.push(k, 1);
            b.push(k, 1);
        }
    }
    for k in &keys {
        assert_eq!(a.get(k), b.get(k));
    }
}

#[test]
fn cuckoo_counts_and_forgets() {
    let mut cf = CuckooCountingFilter::with_capacity(1024);
    assert!(cf.is_empty());
    for _ in 0..3 {
        cf.add(b"apple").unwrap();
    }
    cf.add(b"pear").unwrap();
    assert_eq!(cf.get(b"apple"), 3);
    assert_eq!(cf.get(b"pear"), 1);
    assert_eq!(cf.get(b"plum"), 0);
    assert!(cf.contains(b"apple"));
    assert_eq!(cf.len(), 2);
    assert!(cf.delete(b"apple"));
    assert!(!cf.contains(b"apple"));
    assert_eq!(cf.len(), 1);
    assert!(!cf.delete(b"apple"));
    cf.clear();
    assert!(cf.is_empty());
    assert_eq!(cf.get(b"pear"), 0);
    // 1024 requested slots round to 256 four-slot buckets of 20 bytes each
    assert_eq!(cf.capacity(), 256);
    assert_eq!(cf.memory_usage(), 5120);
}

#[test]
fn cuckoo_test_and_add_reports_presence() {
    let mut cf = CuckooCountingFilter::with_capacity(64);
    assert_eq!(cf.test_and_add(b"a").unwrap(), true);
    assert_eq!(cf.test_and_add(b"a").unwrap(), false);
    assert_eq!(cf.len(), 1);
}

#[test]
fn cuckoo_export_import_round_trip() {
    let mut cf = CuckooCountingFilter::with_capacity(256);
    let keys: Vec<String> = (0..40).map(|i| format!("flow-{}", i)).collect();
    for (n, k) in keys.iter().enumerate() {
        for _ in 0..=(n % 3) {
            cf.add(k.as_bytes()).unwrap();
        }
    }
    let exported = cf.export();
    assert_eq!(exported.capacity, cf.capacity());
    assert_eq!(exported.length, cf.len());
    let back = CuckooCountingFilter::import(&exported);
    assert_eq!(back.len(), cf.len());
    assert_eq!(back.capacity(), cf.capacity());
    for k in &keys {
        assert_eq!(back.contains(k.as_bytes()), cf.contains(k.as_bytes()));
        assert_eq!(back.get(k.as_bytes()), cf.get(k.as_bytes()));
    }
    assert_eq!(back.get(b"absent"), cf.get(b"absent"));
}

#[test]
fn cuckoo_overflow_reports_not_enough_space() {
    // a single bucket holds at most four distinct fingerprints
    let mut cf = CuckooCountingFilter::with_capacity(1);
    let mut failed = false;
    for i in 0..64u32 {
        let kb = i.to_le_bytes();
        if let Err(e) = cf.add(&kb) {
            assert_eq!(e, CuckooError::NotEnoughSpace);
            failed = true;
            break;
        }
    }
    assert!(failed);
    assert!(cf.len() <= 4);
}

#[test]
fn nitro_hash_exact_when_every_arrival_sampled() {
    // probability one never skips, so with factor one the map is exact
    let sampler = GeoSampler::new(Geometric::new(1.0).unwrap(), StdRng::seed_from_u64(4));
    let mut nh = NitroHash::new(1, sampler);
    for _ in 0..5 {
        nh.insert(b"k");
    }
    nh.insert(b"other");
    assert_eq!(nh.get(b"k"), 5);
    assert_eq!(nh.get(b"other"), 1);
    assert_eq!(nh.get(b"missing"), 0);
    assert_eq!(nh.len(), 2);
}

#[test]
fn space_saving_by_hash_evicts_minimum() {
    let mut ss = SpaceSavingByHash::new(2, false, StdRng::seed_from_u64(8));
    ss.insert(b"a");
    ss.insert(b"a");
    ss.insert(b"b");
    // the sketch is full; a fresh key replaces the minimum entry (b at 1)
    ss.insert(b"c");
    assert_eq!(ss.get(b"a"), 2);
    assert_eq!(ss.get(b"c"), 2);
    // an absent key reports the minimum stored counter as its bound
    assert_eq!(ss.get(b"b"), 2);
    assert_eq!(ss.capacity(), 2);
    assert_eq!(ss.len(), 2);
}

#[test]
fn space_saving_queries_never_shrink_once_full() {
    let mut ss = SpaceSavingByHash::new(2, false, StdRng::seed_from_u64(9));
    ss.insert(b"a");
    ss.insert(b"b");
    let mut last = ss.get(b"a");
    for i in 0..200u32 {
        let kb = (i % 5).to_le_bytes();
        ss.insert(&kb);
        let now = ss.get(b"a");
        assert!(now >= last || last == 0, "query shrank: {} -> {}", last, now);
        last = now;
    }
}

#[test]
fn space_saving_queue_evicts_minimum() {
    let mut ss = SpaceSaving::new(2, false, StdRng::seed_from_u64(21));
    ss.insert(b"a");
    ss.insert(b"a");
    ss.insert(b"b");
    // the sketch is full; a fresh key replaces the minimum entry (b at 1)
    ss.insert(b"c");
    assert_eq!(ss.get(b"a"), 2);
    assert_eq!(ss.get(b"c"), 2);
    // an absent key reports the minimum stored counter as its bound
    assert_eq!(ss.get(b"b"), 2);
    assert_eq!(ss.capacity(), 2);
}

#[test]
fn space_saving_rap_admission_is_randomized() {
    // a full one-entry sketch under RAP admits a fresh key with
    // probability one over the displaced counter; many tries make an
    // admission all but certain, and the counter keeps the classic bound
    let mut ss = SpaceSaving::new(1, true, StdRng::seed_from_u64(33));
    ss.insert(b"a");
    for _ in 0..200 {
        ss.insert(b"b");
    }
    assert!(ss.get(b"b") >= 2);
    assert!(ss.get(b"b") <= 201);
}

#[test]
fn facs_queries_never_shrink_across_rollup() {
    let id = id_from_line("1 1 1 1 2 2 2 2");
    let other = id_from_line("3 3 3 3 4 4 4 4");
    let mut facs = FACS::new();
    let mut last_id = 0u32;
    let mut last_other = 0u32;
    for n in 0..25_000 {
        facs.insert(if n % 3 == 0 { other } else { id });
        let now_id = facs.get(id);
        let now_other = facs.get(other);
        assert!(now_id >= last_id, "id query shrank: {} -> {}", last_id, now_id);
        assert!(
            now_other >= last_other,
            "other query shrank: {} -> {}",
            last_other,
            now_other
        );
        last_id = now_id;
        last_other = now_other;
    }
}

#[test]
fn cms_queries_never_shrink() {
    // a tiny table forces collisions; estimates still only climb
    let mut cms = NitroCMS::new(2, 1, 1, true, None);
    let mut last = vec![0u32; 10];
    for n in 0..500u32 {
        let kb = (n % 10).to_le_bytes();
        cms.push(&kb, 1);
        for k in 0..10u32 {
            let now = cms.get(&k.to_le_bytes());
            assert!(now >= last[k as usize]);
            last[k as usize] = now;
        }
    }
}

#[test]
fn facs_window_rolls_into_permanent() {
    let id = id_from_line("10 0 0 1 10 0 0 2");
    let other = id_from_line("10 0 0 3 10 0 0 4");
    let mut facs = FACS::new();
    for _ in 0..15_000 {
        facs.insert(id);
    }
    for _ in 0..3 {
        facs.insert(other);
    }
    assert_eq!(facs.get(id), 15_000);
    assert_eq!(facs.get(other), 3);
    // after the first rollup only the recent window remains stored exactly
    assert!(facs.len() <= 2);
    assert!(facs.estimate_permanent_memory_size() > 0);
}
