use enm::model::{DEFAULT_MASS, LENGTH_UNIT, MASS_UNIT, STIFFNESS_UNIT};
use enm::{AnisotropicNetworkModel, EnmError, Hessian};

fn entries(hessian: &Hessian) -> Vec<Vec<i128>> {
    let dim = hessian.dim();
    (0..dim).map(|row| (0..dim).map(|col| hessian.entry(row, col).unwrap()).collect()).collect()
}

fn sample() -> Vec<[i32; 3]> {
    vec![
        [-1723, 1188, 1856],
        [-3404, 600, 1768],
        [-4674, -1113, 601],
        [-2967, -682, 545],
        [-3094, 2295, 1392],
        [-2510, 1079, 261],
        [-4253, 540, 157],
        [-3857, -766, -992],
    ]
}

#[test]
fn default_model_has_the_documented_values() {
    let model = AnisotropicNetworkModel::default();
    assert_eq!(model.cutoff, 15_000);
    assert_eq!(model.cutoff, 15 * LENGTH_UNIT);
    assert_eq!(model.gamma, 1_000_000_000);
    assert_eq!(model.gamma, STIFFNESS_UNIT);
    assert!(!model.mass_weighted);
    assert_eq!(DEFAULT_MASS, 12_011_000);
    assert_eq!(MASS_UNIT, 1_000_000);
}

#[test]
fn two_atoms_along_one_axis() {
    let model = AnisotropicNetworkModel::default();
    let hessian = model.build_hessian_matrix(&[[0, 0, 0], [2000, 0, 0]], None).unwrap();
    assert_eq!(hessian.atoms(), 2);
    assert_eq!(hessian.dim(), 6);
    let h = entries(&hessian);
    for row in 0..6 {
        for col in 0..6 {
            let expected: i128 = match (row, col) {
                (0, 0) | (3, 3) => 1_000_000_000,
                (0, 3) | (3, 0) => -1_000_000_000,
                _ => 0,
            };
            assert_eq!(h[row][col], expected, "entry ({row}, {col})");
        }
    }
}

#[test]
fn block_entries_follow_the_formula() {
    // r = (3, 4, 12), d2 = 169, gamma = 169 000: S[a][b] = -1000 * r[a] * r[b]
    let model = AnisotropicNetworkModel { cutoff: 14, gamma: 169_000, mass_weighted: false };
    let hessian = model.build_hessian_matrix(&[[1, 1, 1], [4, 5, 13]], None).unwrap();
    let h = entries(&hessian);
    let r: [i128; 3] = [3, 4, 12];
    for a in 0..3 {
        for b in 0..3 {
            let s = -1000 * r[a] * r[b];
            assert_eq!(h[3 + a][b], s);
            assert_eq!(h[a][3 + b], s);
            assert_eq!(h[a][b], -s);
            assert_eq!(h[3 + a][3 + b], -s);
        }
    }
}

#[test]
fn quotients_round_toward_zero() {
    // r = (1, 1, 0), d2 = 2, gamma = 3: -3 / 2 rounds to -1, not to -2
    let model = AnisotropicNetworkModel { cutoff: 10, gamma: 3, mass_weighted: false };
    let hessian = model.build_hessian_matrix(&[[0, 0, 0], [1, 1, 0]], None).unwrap();
    assert_eq!(hessian.entry(3, 0), Some(-1));
    assert_eq!(hessian.entry(0, 0), Some(1));
    // r = (1, -1, 0): the mixed entry is +3 / 2, which rounds to 1
    let hessian = model.build_hessian_matrix(&[[0, 0, 0], [1, -1, 0]], None).unwrap();
    assert_eq!(hessian.entry(3, 1), Some(1));
    assert_eq!(hessian.entry(0, 1), Some(-1));
    assert_eq!(hessian.entry(3, 2), Some(0));
}

#[test]
fn entry_is_none_outside_the_matrix() {
    let model = AnisotropicNetworkModel::default();
    let hessian = model.build_hessian_matrix(&[[0, 0, 0], [2000, 0, 0]], None).unwrap();
    assert_eq!(hessian.entry(5, 5), Some(0));
    assert_eq!(hessian.entry(6, 0), None);
    assert_eq!(hessian.entry(0, 6), None);
    assert_eq!(hessian.entry(usize::MAX, usize::MAX), None);
}

#[test]
fn fewer_than_two_atoms_are_refused() {
    let model = AnisotropicNetworkModel::default();
    assert_eq!(model.build_hessian_matrix(&[], None).err(), Some(EnmError::InvalidInput));
    assert_eq!(model.build_hessian_matrix(&[[1, 2, 3]], None).err(), Some(EnmError::InvalidInput));
    assert_eq!(
        model.build_hessian_matrix(&[[1, 2, 3]], Some(&[12_011_000])).err(),
        Some(EnmError::InvalidInput)
    );
}

#[test]
fn masses_must_pair_up_with_the_atoms() {
    let model = AnisotropicNetworkModel::default();
    let coords = [[0, 0, 0], [2000, 0, 0]];
    assert_eq!(
        model.build_hessian_matrix(&coords, Some(&[1_000_000])).err(),
        Some(EnmError::InvalidInput)
    );
    assert_eq!(
        model.build_hessian_matrix(&coords, Some(&[1_000_000, 1_000_000, 1_000_000])).err(),
        Some(EnmError::InvalidInput)
    );
    assert!(model.build_hessian_matrix(&coords, Some(&[1_000_000, 1_000_000])).is_ok());
}

#[test]
fn masses_are_ignored_without_mass_weighting() {
    let model = AnisotropicNetworkModel::default();
    let coords = sample();
    let plain = model.build_hessian_matrix(&coords, None).unwrap();
    let masses = [1_000_000, 2_000_000, 3_000_000, 4_000_000, 5_000_000, 6_000_000, 7_000_000, 0];
    let with_masses = model.build_hessian_matrix(&coords, Some(&masses)).unwrap();
    assert_eq!(entries(&plain), entries(&with_masses));
}

#[test]
fn hessian_is_symmetric() {
    for mass_weighted in [false, true] {
        let model = AnisotropicNetworkModel { cutoff: 2500, gamma: 987_654_321, mass_weighted };
        let masses = [1_008_000, 12_011_000, 14_007_000, 15_999_000, 32_060_000, 1, 7, 1_000];
        let hessian = model.build_hessian_matrix(&sample(), Some(&masses)).unwrap();
        let h = entries(&hessian);
        for row in 0..24 {
            for col in 0..24 {
                assert_eq!(h[row][col], h[col][row]);
            }
        }
    }
}

#[test]
fn off_diagonal_blocks_of_a_row_sum_to_the_negated_diagonal_block() {
    for mass_weighted in [false, true] {
        let model = AnisotropicNetworkModel { cutoff: 2500, gamma: 987_654_321, mass_weighted };
        let masses = [1_008_000, 12_011_000, 14_007_000, 15_999_000, 32_060_000, 1, 7, 1_000];
        let hessian = model.build_hessian_matrix(&sample(), Some(&masses)).unwrap();
        let h = entries(&hessian);
        let mut joined = 0;
        for i in 0..8 {
            for a in 0..3 {
                for b in 0..3 {
                    let mut sum: i128 = 0;
                    for j in 0..8 {
                        if j != i {
                            sum += h[3 * i + a][3 * j + b];
                            if h[3 * i + a][3 * j + b] != 0 {
                                joined += 1;
                            }
                        }
                    }
                    assert_eq!(sum, -h[3 * i + a][3 * i + b]);
                }
            }
        }
        assert!(joined > 0);
    }
}

#[test]
fn translation_leaves_the_hessian_unchanged() {
    let model = AnisotropicNetworkModel::default();
    let coords = sample();
    let moved: Vec<[i32; 3]> =
        coords.iter().map(|c| [c[0] + 1_000_000, c[1] - 77, c[2] - 2_000_000_000]).collect();
    let here = model.build_hessian_matrix(&coords, None).unwrap();
    let there = model.build_hessian_matrix(&moved, None).unwrap();
    assert_eq!(entries(&here), entries(&there));
}

#[test]
fn pairs_at_or_beyond_the_cutoff_contribute_nothing() {
    // atoms 0 and 1 are 3 apart, atom 2 is 5 from atom 0 and 4 from atom 1
    let coords = [[0, 0, 0], [3, 0, 0], [3, 4, 0]];
    let model = AnisotropicNetworkModel { cutoff: 5, gamma: 3600, mass_weighted: false };
    let h = entries(&model.build_hessian_matrix(&coords, None).unwrap());
    for a in 0..3 {
        for b in 0..3 {
            // the pair (0, 2) is at the cutoff exactly
            assert_eq!(h[a][6 + b], 0);
            assert_eq!(h[6 + a][b], 0);
        }
    }
    // the diagonal block of atom 0 holds the spring to atom 1 only
    assert_eq!(h[0][0], 3600);
    assert_eq!(h[1][1], 0);
    // the diagonal block of atom 2 holds the spring to atom 1 only
    assert_eq!(h[6][6], 0);
    assert_eq!(h[7][7], 3600);
    assert_eq!(h[7][4], -3600);

    // one step farther out and the pair (0, 2) is joined: -3600 * 3 * 4 / 25
    let wider = AnisotropicNetworkModel { cutoff: 6, gamma: 3600, mass_weighted: false };
    let h = entries(&wider.build_hessian_matrix(&coords, None).unwrap());
    assert_eq!(h[0][7], -1728);
    assert_eq!(h[6][6], 1296);
}

#[test]
fn a_cutoff_of_zero_joins_nothing() {
    let model = AnisotropicNetworkModel { cutoff: 0, gamma: 1_000, mass_weighted: false };
    let h = entries(&model.build_hessian_matrix(&sample(), None).unwrap());
    assert!(h.iter().all(|row| row.iter().all(|&v| v == 0)));
}

#[test]
fn atoms_at_the_same_place_are_not_joined() {
    let model = AnisotropicNetworkModel::default();
    let h = entries(&model.build_hessian_matrix(&[[5, 5, 5], [5, 5, 5], [5, 5, 1005]], None).unwrap());
    for a in 0..3 {
        for b in 0..3 {
            assert_eq!(h[a][3 + b], 0);
            assert_eq!(h[3 + a][b], 0);
        }
    }
    assert_eq!(h[2][8], -1_000_000_000);
    assert_eq!(h[5][8], -1_000_000_000);
    assert_eq!(h[8][8], 2_000_000_000);
}

#[test]
fn mass_weighting_divides_by_the_geometric_mean() {
    let model = AnisotropicNetworkModel { cutoff: 15_000, gamma: 1_000_000_000, mass_weighted: true };
    let coords = [[0, 0, 0], [0, 1000, 0]];
    // masses 4 and 9: the geometric mean is 6
    let h = entries(&model.build_hessian_matrix(&coords, Some(&[4_000_000, 9_000_000])).unwrap());
    assert_eq!(h[1][4], -166_666_666);
    assert_eq!(h[4][1], -166_666_666);
    assert_eq!(h[1][1], 166_666_666);
    assert_eq!(h[4][4], 166_666_666);
    assert_eq!(h[0][3], 0);
    // without masses every atom weighs 12.011
    let h = entries(&model.build_hessian_matrix(&coords, None).unwrap());
    assert_eq!(h[1][4], -83_257_014);
    assert_eq!(h[1][1], 83_257_014);
}

#[test]
fn extreme_coordinates_and_spring_constants_fit() {
    let model = AnisotropicNetworkModel { cutoff: u64::MAX, gamma: i64::MIN, mass_weighted: true };
    let coords = [[i32::MIN, i32::MIN, i32::MIN], [i32::MAX, i32::MIN, i32::MIN], [i32::MAX, 0, 0]];
    let h = entries(&model.build_hessian_matrix(&coords, Some(&[1, 1, 1])).unwrap());
    // r = (2^32 - 1, 0, 0): -gamma * MASS_UNIT / 1
    let top: i128 = (1i128 << 63) * 1_000_000;
    assert_eq!(h[3][0], top);
    assert_eq!(h[0][3], top);
    for row in 0..9 {
        for col in 0..9 {
            assert_eq!(h[row][col], h[col][row]);
        }
        let sum: i128 = h[row].iter().enumerate().filter(|(col, _)| col % 3 == 0).map(|(_, v)| *v).sum();
        assert_eq!(sum, 0);
    }
}

#[test]
fn find_link_measures_the_pair() {
    let model = AnisotropicNetworkModel { cutoff: 14, gamma: 1, mass_weighted: true };
    let coords = [[1, 1, 1], [4, 5, 13], [100, 100, 100]];
    let masses = [16_000_000, 4_000_000, 1_000_000];
    let link = model.find_link(&coords, Some(&masses), 0, 1).unwrap();
    assert_eq!(link.offset, [3, 4, 12]);
    assert_eq!(link.d2, 169);
    assert_eq!(link.factor, 8_000_000);
    let unweighted = AnisotropicNetworkModel { cutoff: 14, gamma: 1, mass_weighted: false };
    assert_eq!(unweighted.find_link(&coords, Some(&masses), 0, 1).unwrap().factor, 1);
    let back = model.find_link(&coords, Some(&masses), 1, 0).unwrap();
    assert_eq!(back.offset, [-3, -4, -12]);
    assert!(model.find_link(&coords, Some(&masses), 0, 2).is_none());
    let tight = AnisotropicNetworkModel { cutoff: 13, gamma: 1, mass_weighted: false };
    assert!(tight.find_link(&coords, None, 0, 1).is_none());
    assert_eq!(enm::spring::atom_mass(None, 7), 12_011_000);
    assert_eq!(enm::spring::atom_mass(Some(&masses), 1), 4_000_000);
}

#[test]
fn link_element_scales_and_rounds() {
    let model = AnisotropicNetworkModel { cutoff: 14, gamma: 169, mass_weighted: false };
    let link = model.find_link(&[[1, 1, 1], [4, 5, 13]], None, 0, 1).unwrap();
    assert_eq!(model.link_element(&link, 0, 0), -9);
    assert_eq!(model.link_element(&link, 0, 1), -12);
    assert_eq!(model.link_element(&link, 2, 1), -48);
    assert_eq!(model.link_element(&link, 2, 2), -144);
    let repulsive = AnisotropicNetworkModel { cutoff: 14, gamma: -170, mass_weighted: false };
    assert_eq!(repulsive.link_element(&link, 0, 0), 9);
}
