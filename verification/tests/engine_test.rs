use mastic::collect::{HeavyHitter, KeyCollection};
use mastic::prg::PrgSeed;
use mastic::protocol::{flag_mismatches, run};
use mastic::vidpf::VIDPFKey;
use mastic::{bits_to_string, string_to_bits, u32_to_bits, FieldElm, Group};

fn seed(n: u8) -> PrgSeed {
    PrgSeed { key: [n; 16] }
}

fn pair_for(bits: &[bool], beta: u64, n: u8) -> (VIDPFKey<u64>, VIDPFKey<u64>) {
    VIDPFKey::<u64>::gen_from_seeds(bits, beta, &seed(n), &seed(n.wrapping_add(100)))
}

fn servers(
    nbits: u8,
    points: &[u32],
    order: &[usize],
) -> (KeyCollection<u64>, KeyCollection<u64>) {
    let session = seed(42);
    let mut col_0 = KeyCollection::new(0, &session, nbits as usize);
    let mut col_1 = KeyCollection::new(1, &session, nbits as usize);
    for &i in order {
        let (k_0, k_1) = pair_for(&u32_to_bits(nbits, points[i]), 1, i as u8);
        col_0.add_key(k_0);
        col_1.add_key(k_1);
    }
    (col_0, col_1)
}

fn as_pairs(found: &[HeavyHitter<u64>]) -> Vec<(Vec<bool>, u64)> {
    found.iter().map(|h| (h.path.clone(), h.value)).collect()
}

#[test]
fn run_reports_exactly_the_heavy_hitters() {
    let client_strings = [
        "abdef", "abdef", "abdef", "ghijk", "gZijk", "gZ???", "  ?*g", "abdef", "gZ???", "gZ???",
    ];
    let strlen = string_to_bits(client_strings[0]).len();
    let session = PrgSeed::random();
    let mut col_0 = KeyCollection::new(0, &session, strlen);
    let mut col_1 = KeyCollection::new(1, &session, strlen);
    for cstr in &client_strings {
        let (k_0, k_1) = VIDPFKey::<FieldElm>::gen_from_str(cstr);
        col_0.add_key(k_0);
        col_1.add_key(k_1);
    }
    assert_eq!(col_0.num_keys(), 10);
    assert_eq!(col_0.depth(), 40);
    assert_eq!(col_0.server_id(), 0);
    assert_eq!(col_1.server_id(), 1);
    let (found, flagged) = run(&mut col_0, &mut col_1, &FieldElm::from(2));
    assert!(flagged.is_empty());
    let mut named: Vec<(String, u64)> = found
        .iter()
        .map(|h| (bits_to_string(&h.path), h.value.value()))
        .collect();
    named.sort();
    assert_eq!(
        named,
        vec![("abdef".to_string(), 4u64), ("gZ???".to_string(), 3u64)]
    );
}

#[test]
fn replicated_keys_count_their_multiplicity() {
    let client_strings = [
        "01234567012345670123456701234567",
        "z12x45670y2345670123456701234567",
        "612x45670y2345670123456701234567",
        "912x45670y2345670123456701234567",
    ];
    let strlen = string_to_bits(client_strings[0]).len();
    let session = PrgSeed::random();
    let mut col_0 = KeyCollection::new(0, &session, strlen);
    let mut col_1 = KeyCollection::new(1, &session, strlen);
    let mut keys = vec![];
    for s in &client_strings {
        keys.push(VIDPFKey::<u64>::gen_from_str(s));
    }
    for i in 0..10 {
        col_0.add_key(keys[i % keys.len()].0.clone());
        col_1.add_key(keys[i % keys.len()].1.clone());
    }
    let (found, flagged) = run(&mut col_0, &mut col_1, &2u64);
    assert!(flagged.is_empty());
    let mut named: Vec<(String, u64)> = found
        .iter()
        .map(|h| (bits_to_string(&h.path), h.value))
        .collect();
    named.sort();
    assert_eq!(
        named,
        vec![
            ("01234567012345670123456701234567".to_string(), 3u64),
            ("612x45670y2345670123456701234567".to_string(), 2u64),
            ("912x45670y2345670123456701234567".to_string(), 2u64),
            ("z12x45670y2345670123456701234567".to_string(), 3u64),
        ]
    );
}

#[test]
fn the_order_of_the_keys_does_not_matter() {
    let points = [5u32, 5, 9, 5, 9, 12, 3];
    let (mut a_0, mut a_1) = servers(4, &points, &[0, 1, 2, 3, 4, 5, 6]);
    let (mut b_0, mut b_1) = servers(4, &points, &[6, 4, 2, 0, 5, 3, 1]);
    let (found_a, _) = run(&mut a_0, &mut a_1, &2u64);
    let (found_b, _) = run(&mut b_0, &mut b_1, &2u64);
    assert_eq!(as_pairs(&found_a), as_pairs(&found_b));
    assert_eq!(
        as_pairs(&found_a),
        vec![(u32_to_bits(4, 9), 2u64), (u32_to_bits(4, 5), 3u64)]
    );
}

#[test]
fn counts_fall_along_the_tree_and_pruned_paths_stay_out() {
    let points = [5u32, 5, 9, 5, 9, 12, 3, 13];
    let (mut col_0, mut col_1) = servers(4, &points, &[0, 1, 2, 3, 4, 5, 6, 7]);
    col_0.tree_init();
    col_1.tree_init();
    assert_eq!(col_0.frontier_len(), 1);
    let nobody: Vec<usize> = vec![];
    let mut parents: Vec<(Vec<bool>, u64)> = vec![(vec![], 8)];
    let mut pruned: Vec<Vec<bool>> = vec![];
    for level in 0..4 {
        let (c_0, d_0, n_0) = col_0.tree_crawl(1, &nobody, true);
        let (c_1, d_1, _) = col_1.tree_crawl(1, &nobody, true);
        assert!(n_0.is_empty());
        assert_eq!(d_0, d_1);
        assert_eq!(d_0.len(), c_0.len());
        assert_eq!(c_0.len(), 2 * parents.len());
        let shares_0 = col_0.final_shares();
        let shares_1 = col_1.final_shares();
        let counts = KeyCollection::<u64>::final_values(&shares_0, &shares_1);
        let keep = KeyCollection::<u64>::keep_values(&2u64, &c_0, &c_1);
        let mut next = vec![];
        for (j, child) in counts.iter().enumerate() {
            assert_eq!(child.path.len(), level + 1);
            assert_eq!(child.path[0..level], parents[j / 2].0[..]);
            assert_eq!(child.path[level], j % 2 == 1);
            assert_eq!(child.value, c_0[j].wrapping_add(c_1[j]));
            assert!(child.value <= parents[j / 2].1);
            let expected = points
                .iter()
                .filter(|&&p| u32_to_bits(4, p)[0..=level] == child.path[..])
                .count() as u64;
            assert_eq!(child.value, expected);
            assert_eq!(keep[j], expected >= 2);
            for gone in &pruned {
                assert_ne!(&child.path[0..gone.len()], &gone[..]);
            }
            if keep[j] {
                next.push((child.path.clone(), child.value));
            } else {
                pruned.push(child.path.clone());
            }
        }
        col_0.tree_prune(&keep);
        col_1.tree_prune(&keep);
        assert_eq!(col_0.frontier_len(), next.len());
        let left: Vec<Vec<bool>> = col_0.final_shares().into_iter().map(|h| h.path).collect();
        let wanted: Vec<Vec<bool>> = next.iter().map(|n| n.0.clone()).collect();
        assert_eq!(left, wanted);
        parents = next;
    }
    assert_eq!(
        parents,
        vec![(u32_to_bits(4, 9), 2u64), (u32_to_bits(4, 5), 3u64)]
    );
}

#[test]
fn excluded_keys_are_left_out_of_the_counts() {
    let points = [5u32, 5, 9, 5];
    let (mut col_0, mut col_1) = servers(4, &points, &[0, 1, 2, 3]);
    col_0.tree_init();
    col_1.tree_init();
    let excluded = vec![3usize, 1, 17, 3];
    let (c_0, _, newly_0) = col_0.tree_crawl(1, &excluded, false);
    let (c_1, _, newly_1) = col_1.tree_crawl(1, &excluded, false);
    assert_eq!(newly_0, vec![1usize, 3]);
    assert_eq!(newly_1, vec![1usize, 3]);
    let totals: Vec<u64> = c_0.iter().zip(c_1.iter()).map(|(a, b)| a.wrapping_add(*b)).collect();
    assert_eq!(totals, vec![0u64, 2]);
    let (c_0, digests, newly_0) = col_0.tree_crawl(1, &excluded, false);
    let (c_1, _, _) = col_1.tree_crawl(1, &[], false);
    assert!(newly_0.is_empty());
    assert!(digests.is_empty());
    let totals: Vec<u64> = c_0.iter().zip(c_1.iter()).map(|(a, b)| a.wrapping_add(*b)).collect();
    assert_eq!(totals, vec![0u64, 0, 2, 0]);
}

#[test]
fn a_crawl_of_two_levels_is_two_crawls_of_one() {
    let points = [5u32, 6, 9, 5];
    let (mut a_0, _) = servers(4, &points, &[0, 1, 2, 3]);
    let (mut b_0, _) = servers(4, &points, &[0, 1, 2, 3]);
    a_0.tree_init();
    b_0.tree_init();
    let (counts_a, digests_a, _) = a_0.tree_crawl(2, &[], true);
    b_0.tree_crawl(1, &[], true);
    let (counts_b, digests_b, _) = b_0.tree_crawl(1, &[], true);
    assert_eq!(counts_a.len(), 4);
    assert_eq!(counts_a, counts_b);
    assert_eq!(digests_a, digests_b);
    let (counts_a, digests_a, newly) = a_0.tree_crawl(0, &[2], true);
    assert_eq!(newly, vec![2usize]);
    assert!(digests_a.is_empty());
    assert_eq!(counts_a.len(), 4);
    a_0.tree_prune(&[true, false, false, true]);
    assert_eq!(a_0.frontier_len(), 2);
    a_0.tree_crawl(1, &[], true);
    let (counts_a, chains_a) = a_0.tree_crawl_last();
    assert_eq!(chains_a.len(), 4);
    assert_eq!(counts_a.len(), 8);
    assert_eq!(a_0.frontier_len(), 8);
}

#[test]
fn a_forged_key_breaks_the_agreement_of_the_chains() {
    let points = [5u32, 6, 9];
    let (mut col_0, _) = servers(4, &points, &[0, 1, 2]);
    let session = seed(42);
    let mut col_1 = KeyCollection::new(1, &session, 4);
    for i in 0..3usize {
        let (_, mut k_1) = pair_for(&u32_to_bits(4, points[i]), 1, i as u8);
        if i == 1 {
            k_1.key.root_seed.key[5] ^= 0x40;
        }
        col_1.add_key(k_1);
    }
    col_0.tree_init();
    col_1.tree_init();
    for _ in 0..3 {
        let (_, d_0, _) = col_0.tree_crawl(1, &[], true);
        let (_, d_1, _) = col_1.tree_crawl(1, &[], true);
        assert_ne!(d_0, d_1);
    }
    assert_eq!(flag_mismatches(&col_0.key_chains(), &col_1.key_chains()), vec![1usize]);
    let (_, chains_0) = col_0.tree_crawl_last();
    let (_, chains_1) = col_1.tree_crawl_last();
    assert_eq!(chains_0, col_0.key_chains());
    assert_eq!(chains_0[0], chains_1[0]);
    assert_ne!(chains_0[1], chains_1[1]);
    assert_eq!(chains_0[2], chains_1[2]);
    assert_eq!(flag_mismatches(&chains_0, &chains_1), vec![1usize]);

    let (mut again_0, mut again_1) = servers(4, &points, &[0, 1, 2]);
    let (_, flagged) = run(&mut again_0, &mut again_1, &1u64);
    assert!(flagged.is_empty());
}

#[test]
fn a_run_flags_the_forged_keys() {
    let points = [5u32, 5, 9, 5];
    let (mut col_0, _) = servers(4, &points, &[0, 1, 2, 3]);
    let mut col_1 = KeyCollection::new(1, &seed(42), 4);
    for i in 0..4usize {
        let (_, mut k_1) = pair_for(&u32_to_bits(4, points[i]), 1, i as u8);
        if i == 0 || i == 3 {
            k_1.key.root_seed.key[0] ^= 1;
        }
        col_1.add_key(k_1);
    }
    let (_, flagged) = run(&mut col_0, &mut col_1, &1u64);
    assert_eq!(flagged, vec![0usize, 3]);
}

#[test]
fn mismatches_are_flagged_in_ascending_order() {
    let a = [[1u8; 32], [2u8; 32], [3u8; 32], [4u8; 32]];
    let mut b = a;
    assert_eq!(flag_mismatches(&a, &b), Vec::<usize>::new());
    b[3][31] = 0;
    b[1][0] = 0;
    assert_eq!(flag_mismatches(&a, &b), vec![1usize, 3]);
    assert_eq!(flag_mismatches(&[], &[]), Vec::<usize>::new());
}

#[test]
fn sessions_with_different_seeds_have_different_chains() {
    let points = [5u32];
    let mut col_a = KeyCollection::new(0, &seed(1), 4);
    let mut col_b = KeyCollection::new(0, &seed(2), 4);
    let (k_a, _) = pair_for(&u32_to_bits(4, points[0]), 1, 0);
    let (k_b, _) = pair_for(&u32_to_bits(4, points[0]), 1, 0);
    col_a.add_key(k_a);
    col_b.add_key(k_b);
    col_a.tree_init();
    col_b.tree_init();
    let (c_a, d_a, _) = col_a.tree_crawl(1, &[], true);
    let (c_b, d_b, _) = col_b.tree_crawl(1, &[], true);
    assert_eq!(c_a, c_b);
    assert_ne!(d_a, d_b);
}

#[test]
fn keep_values_compares_the_sum_with_the_threshold() {
    let keep = KeyCollection::<u64>::keep_values(&3u64, &[1, 2, u64::MAX, 0], &[1, 1, 4, 0]);
    assert_eq!(keep, vec![false, true, true, false]);
    let f = |x: u64| FieldElm::from(x);
    let keep = KeyCollection::<FieldElm>::keep_values(
        &f(3),
        &[f(1), f(2), f(0xffff_ffff_0000_0000), f(0)],
        &[f(1), f(1), f(4), f(0)],
    );
    assert_eq!(keep, vec![false, true, true, false]);
    let keep = KeyCollection::<u64>::keep_values(&0u64, &[], &[]);
    assert!(keep.is_empty());
}

#[test]
fn final_values_adds_the_shares() {
    let a = vec![
        HeavyHitter { path: vec![true, false], value: 5u64 },
        HeavyHitter { path: vec![false], value: u64::MAX },
    ];
    let b = vec![
        HeavyHitter { path: vec![true, false], value: 6u64 },
        HeavyHitter { path: vec![false], value: 3u64 },
    ];
    let out = KeyCollection::<u64>::final_values(&a, &b);
    assert_eq!(as_pairs(&out), vec![(vec![true, false], 11u64), (vec![false], 2u64)]);
}

#[test]
fn an_empty_collection_has_an_empty_tree() {
    let mut col = KeyCollection::<u64>::new(0, &seed(0), 3);
    assert_eq!(col.num_keys(), 0);
    assert_eq!(col.frontier_len(), 0);
    col.tree_init();
    assert_eq!(col.frontier_len(), 1);
    let (counts, digests, newly) = col.tree_crawl(2, &[0], true);
    assert_eq!(counts, vec![0u64; 4]);
    assert_eq!(digests.len(), 4);
    assert!(newly.is_empty());
    let (counts, chains) = col.tree_crawl_last();
    assert_eq!(counts, vec![0u64; 8]);
    assert!(chains.is_empty());
    col.tree_prune(&[false; 8]);
    assert_eq!(col.frontier_len(), 0);
    assert!(col.final_shares().is_empty());
}

#[test]
fn shares_of_one_server_alone_are_not_the_counts() {
    let (mut col_0, mut col_1) = servers(4, &[5, 5, 5], &[0, 1, 2]);
    col_0.tree_init();
    col_1.tree_init();
    let (c_0, _, _) = col_0.tree_crawl(1, &[], false);
    let (c_1, _, _) = col_1.tree_crawl(1, &[], false);
    assert_eq!(c_0[1].wrapping_add(c_1[1]), 3);
    assert_eq!(c_0[0].wrapping_add(c_1[0]), 0);
    assert_ne!(c_0[1], 3);
    let mut z = <u64 as Group>::zero();
    z.add(&c_0[0]);
    z.add(&c_1[0]);
    assert_eq!(z, 0);
}
