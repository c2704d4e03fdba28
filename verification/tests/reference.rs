use approx::Relative;
use enm::model::STIFFNESS_UNIT;
use enm::modes::FREQUENCY_FACTOR;
use enm::quantize::to_count;
use enm::{AnisotropicNetworkModel, Decomposition, FloatMatrix};
use nalgebra::{DMatrix, DVector};

fn close(given: f64, expected: f64) -> bool {
    Relative::default().epsilon(1E-4).eq(&given, &expected)
}

#[test]
fn test_enm() {
    // coordinates in thousandths of the length unit
    let coords = [
        [-1723, 1188, 1856],
        [-3404, 600, 1768],
        [-4674, -1113, 601],
        [-2967, -682, 545],
        [-3094, 2295, 1392],
        [-2510, 1079, 261],
        [-4253, 540, 157],
        [-3857, -766, -992],
    ];

    let anm = AnisotropicNetworkModel::default();
    let hessian = anm.build_hessian_matrix(&coords, None).unwrap();
    let dim = hessian.dim();
    assert_eq!(dim, 24);
    let matrix = DMatrix::from_fn(dim, dim, |row, col| {
        hessian.entry(row, col).unwrap() as f64 / STIFFNESS_UNIT as f64
    });
    let given = FloatMatrix {
        order: dim,
        entries: matrix.as_slice().iter().map(|value| value.to_bits()).collect(),
    };
    let eigen = matrix.symmetric_eigen();
    let decomposition = Decomposition {
        eigenvalues: eigen.eigenvalues.iter().map(|value| value.to_bits()).collect(),
        eigenvectors: eigen.eigenvectors.as_slice().iter().map(|value| value.to_bits()).collect(),
        frequencies: Vec::new(),
    };
    let modes = anm.calculate_normal_modes(given, Some(decomposition)).unwrap();
    assert_eq!(modes.len(), 18);

    assert!(close(f64::from_bits(modes[0].0), 0.47256486306316137));
    assert!(close(f64::from_bits(modes[1].0), 0.824857));
    assert!(close(f64::from_bits(modes[2].0), 0.828897));
    assert!(close(f64::from_bits(modes[3].0), 1.051973));

    let vec = &modes[0].1;
    assert!(close(f64::from_bits(vec[0]), 0.22011));
    assert!(close(f64::from_bits(vec[2]), -0.36812));
}

fn by_the_formula(coords: &[[f64; 3]], cutoff: f64, gamma: f64) -> DMatrix<f64> {
    let n = coords.len();
    let mut hessian = DMatrix::zeros(3 * n, 3 * n);
    for i in 0..n {
        for j in 0..i {
            let r: Vec<f64> = (0..3).map(|axis| coords[j][axis] - coords[i][axis]).collect();
            let d2: f64 = r.iter().map(|x| x * x).sum();
            if d2 < cutoff * cutoff {
                for a in 0..3 {
                    for b in 0..3 {
                        let s = -gamma / d2 * r[a] * r[b];
                        hessian[(3 * i + a, 3 * j + b)] = s;
                        hessian[(3 * j + a, 3 * i + b)] = s;
                        hessian[(3 * i + a, 3 * i + b)] -= s;
                        hessian[(3 * j + a, 3 * j + b)] -= s;
                    }
                }
            }
        }
    }
    hessian
}

#[test]
fn hessian_agrees_with_the_real_valued_formula() {
    let coords: [[f64; 3]; 8] = [
        [-1.723, 1.188, 1.856],
        [-3.404, 0.600, 1.768],
        [-4.674, -1.113, 0.601],
        [-2.967, -0.682, 0.545],
        [-3.094, 2.295, 1.392],
        [-2.510, 1.079, 0.261],
        [-4.253, 0.540, 0.157],
        [-3.857, -0.766, -0.992],
    ];
    let counted: Vec<[i32; 3]> = coords
        .iter()
        .map(|c| [0, 1, 2].map(|axis| to_count(c[axis].to_bits(), 1000).unwrap() as i32))
        .collect();
    for (cutoff, gamma) in [(15.0, 1.0), (2.0, 1.0), (3.1, -2.5)] {
        let model = AnisotropicNetworkModel {
            cutoff: to_count(f64::to_bits(cutoff), 1000).unwrap() as u64,
            gamma: to_count(f64::to_bits(gamma), STIFFNESS_UNIT as u64).unwrap(),
            mass_weighted: false,
        };
        let hessian = model.build_hessian_matrix(&counted, None).unwrap();
        let expected = by_the_formula(&coords, cutoff, gamma);
        for row in 0..24 {
            for col in 0..24 {
                let given = hessian.entry(row, col).unwrap() as f64 / STIFFNESS_UNIT as f64;
                assert!((given - expected[(row, col)]).abs() < 1E-8, "entry ({row}, {col})");
            }
        }
    }
}

fn modes_of(model: &AnisotropicNetworkModel, hessian: &DMatrix<f64>) -> Vec<(f64, Vec<f64>)> {
    let given = FloatMatrix {
        order: hessian.nrows(),
        entries: hessian.as_slice().iter().map(|value| value.to_bits()).collect(),
    };
    let eigen = hessian.clone().symmetric_eigen();
    let factor = FREQUENCY_FACTOR as f64 / 100.0;
    let decomposition = Decomposition {
        eigenvalues: eigen.eigenvalues.iter().map(|value| value.to_bits()).collect(),
        eigenvectors: eigen.eigenvectors.as_slice().iter().map(|value| value.to_bits()).collect(),
        frequencies: eigen.eigenvalues.iter().map(|value| (value.sqrt() * factor).to_bits()).collect(),
    };
    model
        .calculate_normal_modes(given, Some(decomposition))
        .unwrap()
        .into_iter()
        .map(|(value, vector)| (f64::from_bits(value), vector.into_iter().map(f64::from_bits).collect()))
        .collect()
}

#[test]
fn mass_weighted_modes_of_a_diagonal_matrix_are_frequencies() {
    let hessian =
        DMatrix::from_diagonal(&DVector::from_vec(vec![0., 0., 0., 0., 0., 0., 1., 4., 9.]));
    let weighted = AnisotropicNetworkModel { cutoff: 15_000, gamma: STIFFNESS_UNIT, mass_weighted: true };
    let modes = modes_of(&weighted, &hessian);
    assert_eq!(modes.len(), 3);
    for (mode, expected) in modes.iter().zip([1302.79, 2605.58, 3908.37]) {
        assert!((mode.0 - expected).abs() < 1E-6);
    }
    let plain = AnisotropicNetworkModel { cutoff: 15_000, gamma: STIFFNESS_UNIT, mass_weighted: false };
    let raw = modes_of(&plain, &hessian);
    assert_eq!(raw.iter().map(|mode| mode.0).collect::<Vec<f64>>(), vec![1.0, 4.0, 9.0]);
    for (with, without) in modes.iter().zip(&raw) {
        assert_eq!(with.1, without.1);
    }
}
