use raytracer::color::{rgb_bytes_to_u32, u32_to_rgb_bytes};
use raytracer::perlin::{corner_index, perlin_generate_perm, permute, POINT_COUNT};
use raytracer::random::Random;
use raytracer::texture::checker_cell_is_even;

#[test]
fn pack_rgb_bytes() {
    assert_eq!(rgb_bytes_to_u32(0x12, 0x34, 0x56), 0x0012_3456);
    assert_eq!(rgb_bytes_to_u32(255, 255, 255), 0x00FF_FFFF);
    assert_eq!(rgb_bytes_to_u32(0, 0, 0), 0);
}

#[test]
fn unpack_rgb_bytes_ignores_top_byte() {
    assert_eq!(u32_to_rgb_bytes(0xAB12_3456), (0x12, 0x34, 0x56));
    assert_eq!(u32_to_rgb_bytes(0x00FF_CE00), (255, 206, 0));
}

#[test]
fn rgb_round_trip() {
    for r in [0u32, 1, 128, 255] {
        for g in [0u32, 7, 200, 255] {
            for b in [0u32, 99, 255] {
                assert_eq!(u32_to_rgb_bytes(rgb_bytes_to_u32(r, g, b)), (r, g, b));
            }
        }
    }
    let p = 0x7F6E_5D4Cu32;
    let (r, g, b) = u32_to_rgb_bytes(p);
    assert_eq!(rgb_bytes_to_u32(r, g, b), p & 0x00FF_FFFF);
}

#[test]
fn random_range_stays_in_range() {
    let mut rng = Random::new(12487324);
    let mut seen = [false; 5];
    for _ in 0..500 {
        let v = rng.range(10..15);
        assert!((10..15).contains(&v));
        seen[v - 10] = true;
    }
    assert!(seen.iter().all(|s| *s));
    for _ in 0..100 {
        assert_eq!(rng.range(3..4), 3);
    }
}

#[test]
fn seeded_random_is_deterministic() {
    let mut a = Random::new(42);
    let mut b = Random::from_os_or_seeded(Some(42)).unwrap();
    let xs: Vec<usize> = (0..50).map(|_| a.range(0..1000)).collect();
    let ys: Vec<usize> = (0..50).map(|_| b.range(0..1000)).collect();
    assert_eq!(xs, ys);
    if let Some(mut c) = Random::from_os_or_seeded(None) {
        assert!(c.range(0..2) < 2);
    }
    if let Some(mut d) = Random::from_os() {
        assert!(d.range(5..6) == 5);
    }
}

#[test]
fn generated_perm_is_permutation() {
    let mut rng = Random::new(7);
    let mut p = [0usize; POINT_COUNT];
    perlin_generate_perm(&mut p, &mut rng);
    let mut sorted = p;
    sorted.sort();
    let identity: Vec<usize> = (0..POINT_COUNT).collect();
    assert_eq!(sorted.to_vec(), identity);
    assert_ne!(p.to_vec(), identity);
    for (i, v) in p.iter().enumerate() {
        assert_ne!(*v, i);
    }
}

#[test]
fn permute_touches_only_prefix() {
    let mut rng = Random::new(3);
    let mut p = [0usize; POINT_COUNT];
    for (i, v) in p.iter_mut().enumerate() {
        *v = 1000 + i;
    }
    permute(&mut p, 10, &mut rng);
    for i in 10..POINT_COUNT {
        assert_eq!(p[i], 1000 + i);
    }
    let mut head: Vec<usize> = p[..10].to_vec();
    head.sort();
    assert_eq!(head, (1000..1010).collect::<Vec<usize>>());
    let before = p;
    permute(&mut p, 1, &mut rng);
    assert_eq!(p, before);
    permute(&mut p, 0, &mut rng);
    assert_eq!(p, before);
}

#[test]
fn corner_index_xors_wrapped_coordinates() {
    let mut px = [0usize; POINT_COUNT];
    let mut py = [0usize; POINT_COUNT];
    let mut pz = [0usize; POINT_COUNT];
    for i in 0..POINT_COUNT {
        px[i] = i;
        py[i] = (i * 7) % POINT_COUNT;
        pz[i] = 255 - i;
    }
    assert_eq!(corner_index(&px, &py, &pz, 0, 0, 0, 0, 0, 0), 0 ^ 0 ^ 255);
    assert_eq!(corner_index(&px, &py, &pz, 3, 1, 2, 1, 0, 1), 4 ^ 7 ^ (255 - 3));
    // negative coordinates wrap round the period
    assert_eq!(corner_index(&px, &py, &pz, -1, -2, -256, 0, 1, 0), 255 ^ ((255 * 7) % 256) ^ 255);
    assert_eq!(corner_index(&px, &py, &pz, 255, 0, 0, 1, 0, 0), 0 ^ 0 ^ 255);
    assert_eq!(corner_index(&px, &py, &pz, i64::MAX - 1, 0, 0, 1, 0, 0), 255 ^ 0 ^ 255);
}

#[test]
fn checker_parity() {
    assert!(checker_cell_is_even(0, 0, 0));
    assert!(!checker_cell_is_even(1, 0, 0));
    assert!(checker_cell_is_even(1, 1, 0));
    assert!(!checker_cell_is_even(-1, 0, 0));
    assert!(checker_cell_is_even(-1, -1, 0));
    assert!(!checker_cell_is_even(-3, 2, -4));
    assert!(checker_cell_is_even(i32::MAX, i32::MIN, 1));
}

#[test]
fn permute_moves_every_entry_of_the_prefix() {
    for seed in 0..20u64 {
        let mut rng = Random::new(seed);
        let mut p = [0usize; POINT_COUNT];
        for (i, v) in p.iter_mut().enumerate() {
            *v = i;
        }
        permute(&mut p, 17, &mut rng);
        for i in 0..17 {
            assert_ne!(p[i], i);
        }
        for i in 17..POINT_COUNT {
            assert_eq!(p[i], i);
        }
    }
    let mut rng = Random::new(1);
    let mut p = [0usize; POINT_COUNT];
    p[1] = 1;
    permute(&mut p, 2, &mut rng);
    assert_eq!((p[0], p[1]), (1, 0));
}

#[test]
fn same_seed_same_lattice_permutation() {
    let mut a = Random::new(12487324);
    let mut b = Random::new(12487324);
    let mut p = [0usize; POINT_COUNT];
    let mut q = [9usize; POINT_COUNT];
    perlin_generate_perm(&mut p, &mut a);
    perlin_generate_perm(&mut q, &mut b);
    assert_eq!(p, q);
    assert_eq!(a.range(0..1000), b.range(0..1000));
    let mut c = Random::new(12487325);
    let mut r = [0usize; POINT_COUNT];
    perlin_generate_perm(&mut r, &mut c);
    assert_ne!(p, r);
}
