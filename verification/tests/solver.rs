use av1_grain::equations::{
    add_ar_observation, add_ar_observation_n, mirror_upper_triangle, scale_equation_system,
    EquationSystem,
};
use av1_grain::flat_blocks::{judge, mark_flat_blocks, FlatBlockFinder};
use av1_grain::kernels::Kernels;
use av1_grain::measurements::{solver_of, LumaNoise};
use av1_grain::model::{luma_noise_of, NoiseError, NoiseModel, NoiseStatus};
use av1_grain::observations::{coord_offsets, sum_chunks, ChannelSurvey, BLOCKS_PER_CHUNK};
use av1_grain::plane::{ChromaSubsampling, Frame, Plane, PlaneGeometry};
use av1_grain::scalar::Scalar;
use av1_grain::segment::GrainTableSegment;
use av1_grain::state::{is_different, NoiseModelState};
use av1_grain::steps::UpdateStep;
use av1_grain::strength::{NoiseStrengthLut, StrengthSolver};
use av1_grain::update::survey_plane;

/// A double-precision number. `DEAF` numbers cannot measure noise.
#[derive(Clone, Copy, Debug, PartialEq)]
struct Real<const DEAF: bool>(f64);

type F = Real<false>;

impl<const DEAF: bool> Scalar for Real<DEAF> {
    fn from_count(n: usize) -> Self {
        Real(n as f64)
    }
    fn from_ratio(num: i64, den: i64) -> Self {
        Real(num as f64 / den as f64)
    }
    fn plus(self, rhs: Self) -> Self {
        Real(self.0 + rhs.0)
    }
    fn minus(self, rhs: Self) -> Self {
        Real(self.0 - rhs.0)
    }
    fn times(self, rhs: Self) -> Self {
        Real(self.0 * rhs.0)
    }
    fn over(self, rhs: Self) -> Self {
        Real(self.0 / rhs.0)
    }
    fn mul_add(self, factor: Self, addend: Self) -> Self {
        Real(self.0.mul_add(factor.0, addend.0))
    }
    fn maximum(self, rhs: Self) -> Self {
        Real(self.0.max(rhs.0))
    }
    fn minimum(self, rhs: Self) -> Self {
        Real(self.0.min(rhs.0))
    }
    fn midpoint(self, rhs: Self) -> Self {
        Real((self.0 + rhs.0) / 2.0)
    }
    fn clamped(self, low: Self, high: Self) -> Self {
        Real(self.0.clamp(low.0, high.0))
    }
    fn negated(self) -> Self {
        Real(-self.0)
    }
    fn absolute(self) -> Self {
        Real(self.0.abs())
    }
    fn squared(self) -> Self {
        Real(self.0.powi(2))
    }
    fn square_root(self) -> Self {
        Real(self.0.sqrt())
    }
    fn exponential(self) -> Self {
        Real(self.0.exp())
    }
    fn log2(self) -> Self {
        Real(self.0.log2())
    }
    fn floor(self) -> Self {
        Real(self.0.floor())
    }
    fn ceil(self) -> Self {
        Real(self.0.ceil())
    }
    fn round(self) -> Self {
        Real(self.0.round())
    }
    fn below(self, rhs: Self) -> bool {
        self.0 < rhs.0
    }
    fn at_least(self, rhs: Self) -> bool {
        self.0 >= rhs.0
    }
    fn to_index(self) -> usize {
        self.0 as usize
    }
    fn to_byte(self) -> u8 {
        self.0 as u8
    }
    fn to_signed(self) -> i32 {
        self.0 as i32
    }
    fn to_rank(self) -> u32 {
        (self.0 as f32).to_bits()
    }
}

fn at(p: &Plane<u8>, k: usize) -> f64 {
    let g = p.geometry;
    f64::from(p.data[g.stride * g.pad_top + g.pad_left + k])
}

impl<const DEAF: bool> Kernels for Real<DEAF> {
    fn linsolve(
        n: usize,
        a: &Vec<Self>,
        stride: usize,
        b: &Vec<Self>,
        x: &Vec<Self>,
    ) -> (Vec<Self>, bool) {
        let mut m: Vec<f64> = a.iter().map(|v| v.0).collect();
        let mut r: Vec<f64> = b.iter().map(|v| v.0).collect();
        let mut y: Vec<f64> = x.iter().map(|v| v.0).collect();
        for k in 0..n {
            let mut best = k;
            for i in k + 1..n {
                if m[i * stride + k].abs() > m[best * stride + k].abs() {
                    best = i;
                }
            }
            for j in 0..n {
                m.swap(k * stride + j, best * stride + j);
            }
            r.swap(k, best);
            let pivot = m[k * stride + k];
            if !(pivot.abs() >= 1e-16) {
                return (x.clone(), false);
            }
            for i in k + 1..n {
                let c = m[i * stride + k] / pivot;
                for j in k..n {
                    m[i * stride + j] -= c * m[k * stride + j];
                }
                r[i] -= c * r[k];
            }
        }
        for i in (0..n).rev() {
            let mut c = 0.0;
            for j in i + 1..n {
                c += m[i * stride + j] * y[j];
            }
            y[i] = (r[i] - c) / m[i * stride + i];
        }
        let ok = y.iter().all(|v| v.is_finite());
        (y.into_iter().map(Real).collect(), ok)
    }

    fn multiply_mat(
        m1: &Vec<Self>,
        m2: &Vec<Self>,
        rows: usize,
        inner: usize,
        cols: usize,
    ) -> Vec<Self> {
        let mut out = Vec::new();
        for i in 0..rows {
            for j in 0..cols {
                out.push(Real((0..inner).map(|k| m1[i * inner + k].0 * m2[k * cols + j].0).sum()));
            }
        }
        out
    }

    fn normalized_cross_correlation(a: &Vec<Self>, b: &Vec<Self>, n: usize) -> Self {
        let dot = |p: &Vec<Self>, q: &Vec<Self>| (0..n).map(|i| p[i].0 * q[i].0).sum::<f64>();
        Real(dot(a, b) / (dot(a, a).sqrt() * dot(b, b).sqrt()))
    }

    fn get_block_mean(
        source: &Plane<u8>,
        frame_dims: (usize, usize),
        x_o: usize,
        y_o: usize,
    ) -> Self {
        let w = (frame_dims.0 - x_o).min(32);
        let h = (frame_dims.1 - y_o).min(32);
        let mut sum = 0.0;
        for y in 0..h {
            for x in 0..w {
                sum += at(source, (y_o + y) * source.geometry.stride + x_o + x);
            }
        }
        Real(sum / (w * h) as f64)
    }

    fn get_noise_var(
        source: &Plane<u8>,
        denoised: &Plane<u8>,
        dims: (usize, usize),
        x_o: usize,
        y_o: usize,
        block_w: usize,
        block_h: usize,
    ) -> Self {
        if DEAF {
            return Real(f64::NAN);
        }
        let w = (dims.0 - x_o).min(block_w);
        let h = (dims.1 - y_o).min(block_h);
        let mut mean = 0.0;
        let mut var = 0.0;
        for y in 0..h {
            for x in 0..w {
                let k = (y_o + y) * source.geometry.stride + x_o + x;
                let noise = at(source, k) - at(denoised, k);
                mean += noise;
                var += noise * noise;
            }
        }
        mean /= (w * h) as f64;
        Real(var / (w * h) as f64 - mean * mean)
    }

    fn extract_ar_row(
        offsets: &Vec<isize>,
        num_coords: usize,
        source: &Plane<u8>,
        denoised: &Plane<u8>,
        base_index: usize,
    ) -> ([Self; 25], Self) {
        let noise = |k: usize| at(source, k) - at(denoised, k);
        let mut row = [Real(0.0); 25];
        for i in 0..num_coords {
            row[i] = Real(noise(base_index.wrapping_add_signed(offsets[i])));
        }
        (row, Real(noise(base_index)))
    }

    fn extract_ar_row_with_alt(
        offsets: &Vec<isize>,
        num_coords: usize,
        source: &Plane<u8>,
        denoised: &Plane<u8>,
        base_index: usize,
        dec: (usize, usize),
        alt_source: &Plane<u8>,
        alt_denoised: &Plane<u8>,
        x: usize,
        y: usize,
    ) -> ([Self; 25], Self) {
        let (mut row, val) = Self::extract_ar_row(offsets, num_coords, source, denoised, base_index);
        let mut sum = 0.0;
        for dy in 0..=dec.1 {
            for dx in 0..=dec.0 {
                let k = ((y << dec.1) + dy) * alt_source.geometry.stride + (x << dec.0) + dx;
                sum += at(alt_source, k) - at(alt_denoised, k);
            }
        }
        row[num_coords] = Real(sum / ((dec.0 + 1) * (dec.1 + 1)) as f64);
        (row, val)
    }
}

fn reals(v: &[f64]) -> Vec<F> {
    v.iter().map(|x| Real(*x)).collect()
}

fn numbers(v: &[F]) -> Vec<f64> {
    v.iter().map(|x| x.0).collect()
}

fn close(a: f64, b: f64) -> bool {
    (a - b).abs() <= 1e-9 * (1.0 + b.abs())
}

fn system(a: &[f64], b: &[f64]) -> EquationSystem<F> {
    EquationSystem { a: reals(a), b: reals(b), x: reals(&vec![0.0; b.len()]), n: b.len() }
}

/// A repeatable source of small numbers.
struct Dice(u64);

impl Dice {
    fn roll(&mut self, sides: u64) -> u64 {
        self.0 = self.0.wrapping_mul(6364136223846793005).wrapping_add(1442695040888963407);
        (self.0 >> 33) % sides
    }
}

fn plane(
    width: usize,
    height: usize,
    subsampling: (u8, u8),
    pad: usize,
    pixel: impl Fn(usize, usize) -> u8,
) -> Plane<u8> {
    let stride = width + 2 * pad;
    let mut data = vec![0; stride * (height + 2 * pad)];
    for y in 0..height {
        for x in 0..width {
            data[(y + pad) * stride + x + pad] = pixel(x, y);
        }
    }
    Plane {
        data,
        geometry: PlaneGeometry {
            width,
            height,
            stride,
            pad_left: pad,
            pad_right: pad,
            pad_top: pad,
            pad_bottom: pad,
            subsampling_x: subsampling.0,
            subsampling_y: subsampling.1,
        },
    }
}

fn monochrome(y_plane: Plane<u8>) -> Frame<u8> {
    Frame {
        y_plane,
        u_plane: None,
        v_plane: None,
        subsampling: ChromaSubsampling::Monochrome,
        bit_depth: 8,
    }
}

fn grid(width: usize, height: usize, seed: u64, sides: u64) -> Vec<u8> {
    let mut dice = Dice(seed);
    (0..width * height).map(|_| dice.roll(sides) as u8).collect()
}

fn noisy(width: usize, height: usize, ss: (u8, u8), seed: u64) -> Plane<u8> {
    let noise = grid(width, height, seed, 9);
    plane(width, height, ss, 0, |x, y| 96 + (x / 2) as u8 + noise[y * width + x])
}

fn smooth(width: usize, height: usize, ss: (u8, u8)) -> Plane<u8> {
    plane(width, height, ss, 0, |x, _| 100 + (x / 2) as u8)
}

fn color(seed: u64, noise: bool) -> Frame<u8> {
    let make = |w: usize, h: usize, ss: (u8, u8), seed: u64| {
        if noise {
            noisy(w, h, ss, seed)
        } else {
            smooth(w, h, ss)
        }
    };
    Frame {
        y_plane: make(64, 64, (1, 1), seed),
        u_plane: Some(make(32, 32, (2, 2), seed + 1)),
        v_plane: Some(make(32, 32, (2, 2), seed + 2)),
        subsampling: ChromaSubsampling::Yuv420,
        bit_depth: 8,
    }
}

/// The pixel of `line` in the previous column shows through in each pixel.
fn smeared(width: usize, height: usize, seed: u64, vertical: bool) -> Plane<u8> {
    let noise = grid(width, height, seed, 9);
    plane(width, height, (1, 1), 0, |x, y| {
        let p = y * width + x;
        let q = if vertical {
            if y > 0 { p - width } else { p }
        } else if x > 0 {
            p - 1
        } else {
            p
        };
        92 + noise[p] + noise[q]
    })
}

#[test]
fn a_new_system_is_zero() {
    let s: EquationSystem<F> = EquationSystem::new(3);
    assert_eq!(s.n, 3);
    assert_eq!(numbers(&s.a), vec![0.0; 9]);
    assert_eq!(numbers(&s.b), vec![0.0; 3]);
    assert_eq!(numbers(&s.x), vec![0.0; 3]);
}

#[test]
fn a_system_is_solved() {
    let mut s = system(&[2.0, 1.0, 1.0, 3.0], &[5.0, 10.0]);
    assert!(s.solve());
    assert!(close(s.x[0].0, 1.0));
    assert!(close(s.x[1].0, 3.0));
    assert_eq!(numbers(&s.a), vec![2.0, 1.0, 1.0, 3.0]);
    assert_eq!(numbers(&s.b), vec![5.0, 10.0]);
}

#[test]
fn a_singular_system_is_not_solved() {
    let mut s = system(&[1.0, 1.0, 1.0, 1.0], &[1.0, 2.0]);
    assert!(!s.solve());
    assert_eq!(numbers(&s.x), vec![0.0, 0.0]);
}

#[test]
fn the_fallback_solves_for_the_last_coefficient() {
    let mut s = system(&[9.0, 9.0, 9.0, 2.0], &[1.0, 6.0]);
    s.x = reals(&[7.0, 7.0]);
    s.set_chroma_coefficient_fallback_solution();
    assert_eq!(numbers(&s.x), vec![0.0, 3.0]);
    s.a[3] = Real(1e-6);
    s.set_chroma_coefficient_fallback_solution();
    assert_eq!(numbers(&s.x), vec![0.0, 0.0]);
    s.a[3] = Real(-2.0);
    s.set_chroma_coefficient_fallback_solution();
    assert_eq!(numbers(&s.x), vec![0.0, -3.0]);
}

#[test]
fn systems_are_copied_cleared_and_added() {
    let one = system(&[1.0, 2.0, 3.0, 4.0], &[5.0, 6.0]);
    let mut s: EquationSystem<F> = EquationSystem::new(2);
    s.copy_from(&one);
    s.x[0] = Real(8.0);
    s.add_assign(&one);
    assert_eq!(numbers(&s.a), vec![2.0, 4.0, 6.0, 8.0]);
    assert_eq!(numbers(&s.b), vec![10.0, 12.0]);
    assert_eq!(numbers(&s.x), vec![8.0, 0.0]);
    let mut t = s.add(&one);
    assert_eq!(numbers(&t.a), vec![3.0, 6.0, 9.0, 12.0]);
    t.clear();
    assert_eq!(numbers(&t.a), vec![0.0; 4]);
    assert_eq!(numbers(&t.b), vec![0.0; 2]);
    assert_eq!(numbers(&t.x), vec![0.0; 2]);
}

#[test]
fn the_upper_triangle_is_mirrored() {
    let mut s = system(&[1.0, 2.0, 3.0, 0.0, 4.0, 5.0, 0.0, 0.0, 6.0], &[0.0; 3]);
    mirror_upper_triangle(&mut s);
    let symmetric = vec![1.0, 2.0, 3.0, 2.0, 4.0, 5.0, 3.0, 5.0, 6.0];
    assert_eq!(numbers(&s.a), symmetric);
    mirror_upper_triangle(&mut s);
    assert_eq!(numbers(&s.a), symmetric);
}

#[test]
fn a_system_is_scaled() {
    let mut s = system(&[1.0, 2.0, 3.0, 4.0], &[5.0, 6.0]);
    s.x[1] = Real(9.0);
    scale_equation_system(&mut s, Real(0.5));
    assert_eq!(numbers(&s.a), vec![0.5, 1.0, 1.5, 2.0]);
    assert_eq!(numbers(&s.b), vec![2.5, 3.0]);
    assert_eq!(numbers(&s.x), vec![0.0, 9.0]);
}

#[test]
fn an_observation_touches_the_upper_triangle_only() {
    for n in [24, 25] {
        let mut s: EquationSystem<F> = EquationSystem::new(n);
        let row: Vec<F> = (0..25).map(|i| Real(i as f64)).collect();
        add_ar_observation(&mut s, &row, Real(2.0));
        add_ar_observation(&mut s, &row, Real(1.0));
        for i in 0..n {
            for j in 0..n {
                let expected = if i <= j { 2.0 * (i * j) as f64 } else { 0.0 };
                assert_eq!(s.a[i * n + j].0, expected);
            }
            assert_eq!(s.b[i].0, 3.0 * i as f64);
        }
    }
    let mut s: EquationSystem<F> = EquationSystem::new(2);
    add_ar_observation_n::<F, 2>(&mut s, &reals(&[3.0, 5.0]), Real(7.0));
    assert_eq!(numbers(&s.a), vec![9.0, 15.0, 0.0, 25.0]);
    assert_eq!(numbers(&s.b), vec![21.0, 35.0]);
}

#[test]
fn a_new_curve_lies_at_the_origin() {
    let lut: NoiseStrengthLut<F> = NoiseStrengthLut::new(4);
    assert_eq!(lut.points, vec![[Real(0.0), Real(0.0)]; 4]);
}

#[test]
fn a_measurement_is_shared_between_bins() {
    let mut s: StrengthSolver<F> = StrengthSolver::new(3);
    s.add_measurement(Real(63.75), Real(2.0));
    assert_eq!(numbers(&s.eqns.a), vec![0.25, 0.25, 0.0, 0.25, 0.25, 0.0, 0.0, 0.0, 0.0]);
    assert_eq!(numbers(&s.eqns.b), vec![1.0, 1.0, 0.0]);
    assert_eq!(s.total.0, 2.0);
    assert_eq!(s.num_equations, 1);
    s.add_measurement(Real(300.0), Real(4.0));
    assert_eq!(s.eqns.a[8].0, 1.0);
    assert_eq!(numbers(&s.eqns.b), vec![1.0, 1.0, 4.0]);
    assert_eq!(s.total.0, 6.0);
    s.clear();
    assert_eq!(numbers(&s.eqns.a), vec![0.0; 9]);
    assert_eq!((s.num_equations, s.total.0), (0, 0.0));
}

#[test]
fn the_strength_is_interpolated() {
    let mut s: StrengthSolver<F> = StrengthSolver::new(3);
    s.eqns.x = reals(&[1.0, 3.0, 7.0]);
    assert_eq!(s.get_value(Real(0.0)).0, 1.0);
    assert_eq!(s.get_value(Real(-5.0)).0, 1.0);
    assert_eq!(s.get_value(Real(63.75)).0, 2.0);
    assert_eq!(s.get_value(Real(191.25)).0, 5.0);
    assert_eq!(s.get_value(Real(255.0)).0, 7.0);
    assert_eq!(s.get_value(Real(999.0)).0, 7.0);
}

#[test]
fn solving_for_strengths_keeps_the_matrix() {
    let mut s: StrengthSolver<F> = StrengthSolver::new(2);
    s.add_measurement(Real(0.0), Real(2.0));
    s.add_measurement(Real(255.0), Real(4.0));
    let before = numbers(&s.eqns.a);
    assert!(s.solve());
    assert_eq!(numbers(&s.eqns.a), before);
    // The smoothness weight is 2 * 2 / 2, the pull a 8192nd of the mean strength, 3.
    let pull = 3.0 / 8192.0;
    assert!(close(s.eqns.b[0].0, 2.0 + pull));
    assert!(close(s.eqns.b[1].0, 4.0 + pull));
    let d = 3.0 + 1.0 / 8192.0;
    let det = d * d - 4.0;
    assert!(close(s.eqns.x[0].0, (d * (2.0 + pull) + 2.0 * (4.0 + pull)) / det));
    assert!(close(s.eqns.x[1].0, (d * (4.0 + pull) + 2.0 * (2.0 + pull)) / det));
}

#[test]
fn strengths_are_added() {
    let mut s: StrengthSolver<F> = StrengthSolver::new(2);
    s.add_measurement(Real(0.0), Real(2.0));
    let mut t: StrengthSolver<F> = StrengthSolver::new(2);
    t.add_measurement(Real(255.0), Real(4.0));
    t.add_assign(&s);
    assert_eq!(numbers(&t.eqns.a), vec![1.0, 0.0, 0.0, 1.0]);
    assert_eq!(numbers(&t.eqns.b), vec![2.0, 4.0]);
    assert_eq!((t.num_equations, t.total.0), (2, 6.0));
    let u = t.add(&s);
    assert_eq!((u.num_equations, u.total.0), (3, 8.0));
    assert_eq!(u.eqns.a[0].0, 2.0);
}

fn curve(strengths: &[f64], max: usize) -> Vec<[f64; 2]> {
    let mut s: StrengthSolver<F> = StrengthSolver::new(strengths.len());
    s.eqns.x = reals(strengths);
    s.fit_piecewise(max).points.iter().map(|p| [p[0].0, p[1].0]).collect()
}

#[test]
fn a_straight_curve_keeps_its_ends_only() {
    assert_eq!(curve(&[1.0, 2.0, 3.0, 4.0, 5.0, 6.0], 14), vec![[0.0, 1.0], [255.0, 6.0]]);
    assert_eq!(curve(&[0.0; 20], 14), vec![[0.0, 0.0], [255.0, 0.0]]);
}

#[test]
fn a_bent_curve_keeps_its_bend() {
    let points = curve(&[0.0, 5.0, 10.0, 5.0, 0.0], 14);
    // The residual that the bend had stays behind at its place, where the next point is now.
    assert_eq!(points, vec![[0.0, 0.0], [127.5, 10.0], [191.25, 5.0], [255.0, 0.0]]);
}

#[test]
fn a_curve_has_no_more_points_than_asked_for() {
    let jagged: Vec<f64> = (0..20).map(|i| if i % 2 == 0 { 0.0 } else { 50.0 }).collect();
    for max in 2..=20 {
        let points = curve(&jagged, max);
        assert_eq!(points.len(), max);
        assert_eq!(points[0], [0.0, 0.0]);
        assert_eq!(points[max - 1], [255.0, 50.0]);
    }
    assert_eq!(curve(&jagged, 0).len(), 2);
}

#[test]
fn the_gain_follows_from_the_coefficients() {
    let mut luma: NoiseModelState<F> = NoiseModelState::new(2);
    assert_eq!((luma.ar_gain.0, luma.num_observations, luma.strength_solver.num_bins), (1.0, 0, 20));
    luma.eqns = system(&[4.0, 0.0, 0.0, 4.0], &[2.0, 0.0]);
    luma.num_observations = 4;
    assert!(luma.ar_equation_system_solve(false));
    assert!(close(luma.ar_gain.0, (1.0f64 / 0.75).sqrt()));

    let mut chroma: NoiseModelState<F> = NoiseModelState::new(2);
    chroma.eqns = system(&[4.0, 1.0, 1.0, 4.0], &[3.0, 2.0]);
    chroma.num_observations = 4;
    assert!(chroma.ar_equation_system_solve(true));
    assert!(close(chroma.eqns.x[0].0, 2.0 / 3.0));
    assert!(close(chroma.ar_gain.0, 1.8f64.sqrt()));

    chroma.eqns = system(&[0.0; 4], &[0.0; 2]);
    assert!(!chroma.ar_equation_system_solve(true));
    assert_eq!(chroma.ar_gain.0, 1.0);
}

#[test]
fn estimates_are_compared() {
    let mut latest: NoiseModelState<F> = NoiseModelState::new(2);
    let mut combined: NoiseModelState<F> = NoiseModelState::new(2);
    latest.eqns.x = reals(&[1.0, 0.0]);
    combined.eqns.x = reals(&[0.0, 1.0]);
    assert!(is_different(&latest, &combined));
    combined.eqns.x = reals(&[3.0, 0.0]);
    assert!(!is_different(&latest, &combined));
    for i in 0..20 {
        latest.strength_solver.eqns.a[i * 20 + i] = Real(1.0);
        latest.strength_solver.eqns.x[i] = Real(1.0);
        combined.strength_solver.eqns.x[i] = Real(0.95);
    }
    assert!(!is_different(&latest, &combined));
    combined.strength_solver.eqns.x = reals(&[0.0; 20]);
    assert!(is_different(&latest, &combined));
}

#[test]
fn the_model_looks_back() {
    let m: NoiseModel<F> = NoiseModel::new();
    let mut coords = Vec::new();
    for y in -3..=0 {
        for x in -3..=3 {
            if y < 0 || x < 0 {
                coords.push([x, y]);
            }
        }
    }
    assert_eq!(m.n, 24);
    assert_eq!(m.coords, coords);
    assert_eq!(m.combined_state.y.eqns.n, 24);
    assert_eq!(m.latest_state.cb.eqns.n, 25);
    assert_eq!(m.combined_state.cr.strength_solver.num_bins, 20);
}

#[test]
fn windows_leave_out_what_looks_into_other_blocks() {
    let source = noisy(64, 64, (1, 1), 1);
    let denoised = smooth(64, 64, (1, 1));
    let m: NoiseModel<F> = NoiseModel::new();
    let count = |flat: [u8; 4], indices: Vec<usize>| {
        let survey = ChannelSurvey {
            source: &source,
            denoised: &denoised,
            alt: None,
            frame_dims: (64, 64),
            flat_blocks: &flat,
            num_blocks_w: 2,
        };
        survey.block_observations::<F>(&m.coords, 24, 24, &indices).1
    };
    assert_eq!(count([1, 0, 0, 0], vec![0]), 26 * 29);
    assert_eq!(count([1, 1, 0, 0], vec![0]), 29 * 29);
    assert_eq!(count([0, 1, 0, 0], vec![1]), 26 * 29);
    assert_eq!(count([0, 1, 0, 1], vec![3]), 26 * 32);
    assert_eq!(count([1, 1, 1, 1], vec![0, 1, 2, 3]), 2 * 29 * 29 + 2 * 29 * 32);
}

#[test]
fn observations_are_products_of_noise() {
    let source = noisy(64, 64, (1, 1), 5);
    let denoised = smooth(64, 64, (1, 1));
    let flat = [0, 0, 0, 1];
    let survey = ChannelSurvey {
        source: &source,
        denoised: &denoised,
        alt: None,
        frame_dims: (64, 64),
        flat_blocks: &flat,
        num_blocks_w: 2,
    };
    let m: NoiseModel<F> = NoiseModel::new();
    let (s, n) = survey.block_observations::<F>(&m.coords, 24, 24, &vec![3]);
    assert_eq!(n, 26 * 29);
    let noise = |x: usize, y: usize| at(&source, y * 64 + x) - at(&denoised, y * 64 + x);
    let (mut first, mut mixed, mut last) = (0.0, 0.0, 0.0);
    for y in 35..64 {
        for x in 35..61 {
            first += noise(x - 3, y - 3) * noise(x - 3, y - 3);
            mixed += noise(x - 3, y - 3) * noise(x - 1, y);
            last += noise(x - 1, y) * noise(x, y);
        }
    }
    assert!(close(s.a[0].0, first / 65025.0));
    assert!(close(s.a[23].0, mixed / 65025.0));
    assert_eq!(s.a[23], s.a[23 * 24]);
    assert!(close(s.b[23].0, last / 65025.0));
}

#[test]
fn chroma_observations_include_luma() {
    let source = color(40, true);
    let denoised = color(40, false);
    let (u, du) = (source.u_plane.as_ref().unwrap(), denoised.u_plane.as_ref().unwrap());
    let flat = [1, 0, 0, 0];
    let survey = ChannelSurvey {
        source: u,
        denoised: du,
        alt: Some((&source.y_plane, &denoised.y_plane)),
        frame_dims: (64, 64),
        flat_blocks: &flat,
        num_blocks_w: 2,
    };
    let m: NoiseModel<F> = NoiseModel::new();
    let (s, n) = survey.block_observations::<F>(&m.coords, 24, 25, &vec![0]);
    assert_eq!(n, 10 * 13);
    let luma = |x: usize, y: usize| {
        let mut sum = 0.0;
        for (dx, dy) in [(0, 0), (1, 0), (0, 1), (1, 1)] {
            let k = (2 * y + dy) * 64 + 2 * x + dx;
            sum += at(&source.y_plane, k) - at(&denoised.y_plane, k);
        }
        sum / 4.0
    };
    let (mut corner, mut rhs) = (0.0, 0.0);
    for y in 3..16 {
        for x in 3..13 {
            corner += luma(x, y) * luma(x, y);
            rhs += luma(x, y) * (at(u, y * 32 + x) - at(du, y * 32 + x));
        }
    }
    assert!(close(s.a[24 * 25 + 24].0, corner / 65025.0));
    assert!(close(s.b[24].0, rhs / 65025.0));
}

#[test]
fn chunks_add_up() {
    let source = noisy(128, 96, (1, 1), 9);
    let denoised = smooth(128, 96, (1, 1));
    let flat = [1u8; 12];
    let survey = ChannelSurvey {
        source: &source,
        denoised: &denoised,
        alt: None,
        frame_dims: (128, 96),
        flat_blocks: &flat,
        num_blocks_w: 4,
    };
    let m: NoiseModel<F> = NoiseModel::new();
    let indices: Vec<usize> = (0..12).collect();
    let offsets: Vec<isize> = m.coords.iter().map(|c| c[1] * 128 + c[0]).collect();
    let (mut sum, n0) = survey.chunk_observations::<F>(&offsets, 24, 24, &indices, 0, 8);
    let (rest, n1) = survey.chunk_observations::<F>(&offsets, 24, 24, &indices, 8, 12);
    sum.add_assign(&rest);
    let (all, n) = survey.block_observations::<F>(&m.coords, 24, 24, &indices);
    assert_eq!(n, n0 + n1);
    for (p, q) in all.a.iter().zip(sum.a.iter()) {
        assert!(close(p.0, q.0));
    }
}

#[test]
fn padding_does_not_matter() {
    let noise = grid(64, 32, 3, 9);
    let pixel = |x: usize, y: usize| 90 + noise[y * 64 + x];
    let flat = [1u8, 1];
    let m: NoiseModel<F> = NoiseModel::new();
    let mut results = Vec::new();
    for pad in [0, 5] {
        let source = plane(64, 32, (1, 1), pad, pixel);
        let denoised = plane(64, 32, (1, 1), pad, |_, _| 94);
        let survey = ChannelSurvey {
            source: &source,
            denoised: &denoised,
            alt: None,
            frame_dims: (64, 32),
            flat_blocks: &flat,
            num_blocks_w: 2,
        };
        results.push(survey.block_observations::<F>(&m.coords, 24, 24, &vec![0, 1]));
    }
    assert_eq!(results[0].1, results[1].1);
    assert_eq!(results[0].0.a, results[1].0.a);
}

#[test]
fn noise_is_measured_block_by_block() {
    // The noise alternates between two above and two below: its variance is four.
    let source = plane(64, 32, (1, 1), 0, |x, y| if (x + y) % 2 == 0 { 52 } else { 48 });
    let denoised = plane(64, 32, (1, 1), 0, |_, _| 50);
    let flat = [1u8, 1];
    let survey = ChannelSurvey {
        source: &source,
        denoised: &denoised,
        alt: None,
        frame_dims: (64, 32),
        flat_blocks: &flat,
        num_blocks_w: 2,
    };
    let (mean, strength) = survey.noise_measurement(Real::<false>(2.0), &None, 1).unwrap();
    assert!(close(mean.0, 50.0));
    assert!(close(strength.0, 1.0));

    let mut solver: StrengthSolver<F> = StrengthSolver::new(2);
    solver.eqns.x = reals(&[1.0, 1.0]);
    let luma = |corr: f64| Some(LumaNoise { corr: Real(corr), gain: Real(2.0), solver: &solver });
    let (_, strength) = survey.noise_measurement(Real::<false>(1.0), &luma(0.5), 0).unwrap();
    assert!(close(strength.0, 3.0f64.sqrt()));
    // At least a sixteenth of the variance is left.
    let (_, strength) = survey.noise_measurement(Real::<false>(1.0), &luma(5.0), 0).unwrap();
    assert!(close(strength.0, 0.5));

    let s = survey.measure_strength(Real::<false>(2.0), &None, 20, &vec![0, 1]);
    assert_eq!(s.num_equations, 2);
    assert!(close(s.total.0, 2.0));
}

#[test]
fn a_block_with_few_samples_is_not_measured() {
    let source = noisy(35, 8, (1, 1), 2);
    let denoised = smooth(35, 8, (1, 1));
    let flat = [1u8, 1];
    let survey = ChannelSurvey {
        source: &source,
        denoised: &denoised,
        alt: None,
        frame_dims: (35, 8),
        flat_blocks: &flat,
        num_blocks_w: 2,
    };
    assert!(survey.noise_measurement(Real::<false>(1.0), &None, 0).is_some());
    assert!(survey.noise_measurement(Real::<false>(1.0), &None, 1).is_none());
    assert_eq!(survey.measure_strength(Real::<false>(1.0), &None, 20, &vec![0, 1]).num_equations, 1);
}

#[test]
fn too_few_flat_blocks_are_refused() {
    let mut m: NoiseModel<F> = NoiseModel::new();
    let source = monochrome(noisy(64, 64, (1, 1), 1));
    let denoised = monochrome(smooth(64, 64, (1, 1)));
    assert_eq!(m.update(&source, &denoised, &[1, 1, 1, 1]), NoiseStatus::Updated);
    let combined = numbers(&m.combined_state.y.eqns.a);
    let gain = m.latest_state.y.ar_gain;
    for flat in [[0, 0, 0, 0], [0, 255, 0, 0]] {
        assert_eq!(
            m.update(&source, &denoised, &flat),
            NoiseStatus::Error(NoiseError::NotEnoughFlatBlocks)
        );
        assert_eq!(numbers(&m.latest_state.y.eqns.a), vec![0.0; 576]);
        assert_eq!(m.latest_state.y.num_observations, 0);
        assert_eq!(m.latest_state.y.strength_solver.num_equations, 0);
        assert_eq!(m.latest_state.y.ar_gain, gain);
        assert_eq!(numbers(&m.combined_state.y.eqns.a), combined);
    }
    assert_eq!(
        NoiseError::NotEnoughFlatBlocks.message(),
        "Not enough flat blocks to update noise estimate"
    );
}

#[test]
fn a_frame_is_taken_in() {
    let mut m: NoiseModel<F> = NoiseModel::new();
    let source = color(11, true);
    let denoised = color(11, false);
    assert_eq!(m.update(&source, &denoised, &[1, 1, 1, 1]), NoiseStatus::Updated);
    assert_eq!(m.latest_state.y.num_observations, 2 * 29 * 29 + 2 * 29 * 32);
    assert_eq!(m.latest_state.cb.num_observations, 2 * 13 * 13 + 2 * 13 * 16);
    assert_eq!(m.combined_state.y.num_observations, m.latest_state.y.num_observations);
    assert_eq!(m.combined_state.cr.strength_solver.num_equations, 4);
    assert_eq!(m.combined_state.y.eqns.a, m.latest_state.y.eqns.a);
    assert_eq!(m.combined_state.cb.eqns.x, m.latest_state.cb.eqns.x);
    assert_eq!(m.combined_state.y.ar_gain, m.latest_state.y.ar_gain);
    assert!(m.combined_state.y.ar_gain.0 >= 1.0);
    // The same frame again: its noise is the same.
    assert_eq!(m.update(&source, &denoised, &[1, 1, 1, 1]), NoiseStatus::Updated);
    assert_eq!(m.combined_state.y.num_observations, 2 * m.latest_state.y.num_observations);
    assert_eq!(m.combined_state.cb.strength_solver.num_equations, 8);
}

#[test]
fn a_monochrome_frame_leaves_chroma_alone() {
    let mut m: NoiseModel<F> = NoiseModel::new();
    let source = monochrome(noisy(64, 64, (1, 1), 1));
    let denoised = monochrome(smooth(64, 64, (1, 1)));
    assert_eq!(m.update(&source, &denoised, &[1, 1, 1, 1]), NoiseStatus::Updated);
    assert_eq!(m.combined_state.cb.num_observations, 0);
    assert_eq!(numbers(&m.combined_state.cr.eqns.a), vec![0.0; 625]);
}

#[test]
fn other_noise_is_told_apart() {
    let mut m: NoiseModel<F> = NoiseModel::new();
    let denoised = monochrome(plane(64, 64, (1, 1), 0, |_, _| 100));
    let across = monochrome(smeared(64, 64, 1, false));
    let down = monochrome(smeared(64, 64, 2, true));
    assert_eq!(m.update(&across, &denoised, &[1, 1, 1, 1]), NoiseStatus::Updated);
    let combined = numbers(&m.combined_state.y.eqns.a);
    let equations = m.combined_state.y.strength_solver.num_equations;
    assert_eq!(m.update(&down, &denoised, &[1, 1, 1, 1]), NoiseStatus::DifferentType);
    assert_eq!(numbers(&m.combined_state.y.eqns.a), combined);
    assert_eq!(m.combined_state.y.strength_solver.num_equations, equations);
    // The model can start anew from there.
    m.save_latest();
    assert_eq!(m.combined_state.y.eqns.a, m.latest_state.y.eqns.a);
    assert_eq!(m.combined_state.y.eqns.x, m.latest_state.y.eqns.x);
    assert_eq!(m.combined_state.y.ar_gain, m.latest_state.y.ar_gain);
    assert_eq!(
        m.combined_state.y.strength_solver.eqns.x,
        m.latest_state.y.strength_solver.eqns.x
    );
    assert_eq!(m.update(&down, &denoised, &[1, 1, 1, 1]), NoiseStatus::Updated);
}

#[test]
fn a_frame_without_noise_cannot_be_solved() {
    let mut m: NoiseModel<F> = NoiseModel::new();
    let frame = color(1, false);
    assert_eq!(
        m.update(&frame, &frame, &[1, 1, 1, 1]),
        NoiseStatus::Error(NoiseError::LatestSystemUnsolved)
    );
    assert_eq!(
        NoiseError::LatestSystemUnsolved.message(),
        "Solving latest noise equation system failed on plane 0"
    );
    assert_eq!(m.combined_state.y.num_observations, 0);
}

#[test]
fn chroma_without_noise_falls_back() {
    let mut m: NoiseModel<F> = NoiseModel::new();
    let mut source = color(21, true);
    let denoised = color(21, false);
    source.u_plane = Some(smooth(32, 32, (2, 2)));
    assert_eq!(m.update(&source, &denoised, &[1, 1, 1, 1]), NoiseStatus::Updated);
    assert_eq!(numbers(&m.latest_state.cb.eqns.x), vec![0.0; 25]);
    assert_eq!(m.latest_state.cb.ar_gain.0, 1.0);
}

#[test]
fn strengths_that_cannot_be_found_are_reported() {
    let mut m: NoiseModel<Real<true>> = NoiseModel::new();
    let source = monochrome(noisy(64, 64, (1, 1), 1));
    let denoised = monochrome(smooth(64, 64, (1, 1)));
    assert_eq!(
        m.update(&source, &denoised, &[1, 1, 1, 1]),
        NoiseStatus::Error(NoiseError::LatestStrengthUnsolved)
    );
    assert_eq!(
        NoiseError::LatestStrengthUnsolved.message(),
        "Failed to solve strength solver for latest state"
    );
    assert_eq!(m.combined_state.y.num_observations, 0);
}

#[test]
fn a_combined_system_that_cannot_be_solved_is_reported() {
    let source = monochrome(noisy(64, 64, (1, 1), 1));
    let denoised = monochrome(smooth(64, 64, (1, 1)));
    let mut m: NoiseModel<F> = NoiseModel::new();
    m.combined_state.y.eqns.a[0] = Real(f64::NAN);
    assert_eq!(
        m.update(&source, &denoised, &[1, 1, 1, 1]),
        NoiseStatus::Error(NoiseError::CombinedSystemUnsolved)
    );
    assert_eq!(
        NoiseError::CombinedSystemUnsolved.message(),
        "Solving combined noise equation system failed on plane 0"
    );
    let mut m: NoiseModel<F> = NoiseModel::new();
    m.combined_state.y.strength_solver.eqns.a[0] = Real(f64::NAN);
    assert_eq!(
        m.update(&source, &denoised, &[1, 1, 1, 1]),
        NoiseStatus::Error(NoiseError::CombinedStrengthUnsolved)
    );
    assert_eq!(
        NoiseError::CombinedStrengthUnsolved.message(),
        "Failed to solve strength solver for combined state"
    );
    assert_eq!(m.combined_state.y.num_observations, m.latest_state.y.num_observations);
}

fn points(v: &[[f64; 2]]) -> NoiseStrengthLut<F> {
    NoiseStrengthLut { points: v.iter().map(|p| [Real(p[0]), Real(p[1])]).collect() }
}

fn segment(y: &[[f64; 2]], cb: &[[f64; 2]], cr: &[[f64; 2]]) -> GrainTableSegment {
    let m: NoiseModel<F> = NoiseModel::new();
    m.grain_segment(&points(y), &points(cb), &points(cr), 1, 2)
}

#[test]
fn a_blank_model_has_a_blank_segment() {
    let m: NoiseModel<F> = NoiseModel::new();
    let g = m.get_grain_parameters(0, 7);
    assert_eq!((g.start_time, g.end_time, g.random_seed), (0, 7, 10956));
    assert_eq!(g.scaling_points_y.as_slice(), &[[0, 0], [255, 0]]);
    assert_eq!(g.scaling_points_cb.as_slice(), &[[0, 0], [255, 0]]);
    assert_eq!(g.scaling_points_cr.as_slice(), &[[0, 0], [255, 0]]);
    assert_eq!((g.scaling_shift, g.ar_coeff_shift, g.ar_coeff_lag), (11, 9, 3));
    assert_eq!(g.ar_coeffs_y.as_slice(), &[0; 24]);
    assert_eq!(g.ar_coeffs_cb.as_slice(), &[0; 25]);
    assert_eq!(g.ar_coeffs_cr.as_slice(), &[0; 25]);
    assert_eq!((g.cb_mult, g.cb_luma_mult, g.cb_offset), (128, 192, 256));
    assert_eq!((g.cr_mult, g.cr_luma_mult, g.cr_offset), (128, 192, 256));
    assert!(g.overlap_flag);
    assert!(!g.chroma_scaling_from_luma);
    assert_eq!(g.grain_scale_shift, 0);
    assert_eq!(m.get_grain_parameters(3, 7).random_seed, 0);
}

#[test]
fn strengths_are_scaled_to_bytes() {
    let g = segment(&[[0.0, 1.0], [127.4, 3.0]], &[[127.5, -1.0]], &[]);
    assert_eq!(g.scaling_shift, 11);
    assert_eq!(g.scaling_points_y.as_slice(), &[[0, 64], [127, 192]]);
    assert_eq!(g.scaling_points_cb.as_slice(), &[[128, 0]]);
    assert!(g.scaling_points_cr.is_empty());
    let g = segment(&[[0.0, 1.0]], &[], &[[255.0, 7.0]]);
    assert_eq!(g.scaling_shift, 10);
    assert_eq!(g.scaling_points_y.as_slice(), &[[0, 32]]);
    assert_eq!(g.scaling_points_cr.as_slice(), &[[255, 224]]);
    let g = segment(&[[0.0, 20.0], [9.0, 100.0]], &[[300.0, 1.0]], &[]);
    assert_eq!(g.scaling_shift, 8);
    assert_eq!(g.scaling_points_y.as_slice(), &[[0, 160], [9, 255]]);
    assert_eq!(g.scaling_points_cb.as_slice(), &[[255, 8]]);
}

#[test]
fn coefficients_are_scaled_to_bytes() {
    let mut m: NoiseModel<F> = NoiseModel::new();
    m.combined_state.y.eqns.x[0] = Real(0.5);
    m.combined_state.cb.eqns.x[0] = Real(-0.25);
    m.combined_state.cb.eqns.x[24] = Real(0.1);
    let g = m.get_grain_parameters(0, 1);
    assert_eq!(g.ar_coeff_shift, 7);
    assert_eq!(g.ar_coeffs_y[0], 64);
    assert_eq!(g.ar_coeffs_cb[0], -32);
    assert_eq!(g.ar_coeffs_cb[24], 13);
    assert_eq!(g.ar_coeffs_cr[24], 0);
    m.combined_state.cr.eqns.x[3] = Real(-9.0);
    m.combined_state.cr.eqns.x[4] = Real(9.0);
    let g = m.get_grain_parameters(0, 1);
    assert_eq!(g.ar_coeff_shift, 6);
    assert_eq!((g.ar_coeffs_cr[3], g.ar_coeffs_cr[4]), (-128, 127));
    assert_eq!(g.ar_coeffs_y[0], 32);
}

#[test]
fn the_correlation_is_unscaled() {
    let mut m: NoiseModel<F> = NoiseModel::new();
    // The luma noise is four times as strong, on average, as that of the first chroma plane.
    for i in 0..20 {
        m.combined_state.y.strength_solver.eqns.a[i * 20 + i] = Real(9.0);
        m.combined_state.y.strength_solver.eqns.x[i] = Real(2.0);
        m.combined_state.cb.strength_solver.eqns.a[i * 20 + i] = Real(1.0);
        m.combined_state.cb.strength_solver.eqns.x[i] = Real(0.5);
    }
    m.combined_state.cb.eqns.x[24] = Real(0.1);
    m.combined_state.cr.eqns.x[24] = Real(0.1);
    let g = m.get_grain_parameters(0, 1);
    // Correlations of 0.4 and 0.2 leave room for eight fractional bits.
    assert_eq!(g.ar_coeff_shift, 8);
    assert_eq!(g.ar_coeffs_cb[24], 102);
    assert_eq!(g.ar_coeffs_cr[24], 51);
}

#[test]
fn blocks_in_the_top_tenth_are_marked() {
    let flats = vec![false, true, false];
    let (marks, num) = mark_flat_blocks(&flats, &vec![5, 1, 9]);
    assert_eq!((marks, num), (vec![0, 255, 1], 2));
    let ranks: Vec<u32> = (0..20).rev().collect();
    let (marks, num) = mark_flat_blocks(&vec![false; 20], &ranks);
    assert_eq!(num, 2);
    assert_eq!(&marks[..3], &[1, 1, 0]);
    let (marks, num) = mark_flat_blocks(&vec![false; 4], &vec![7; 4]);
    assert_eq!((marks, num), (vec![1; 4], 4));
    let (marks, num) = mark_flat_blocks(&vec![false], &vec![u32::MAX]);
    assert_eq!((marks, num), (vec![1], 1));
}

#[test]
fn a_finder_inverts_the_normal_matrix() {
    let f: FlatBlockFinder<F> = FlatBlockFinder::new();
    assert_eq!(f.a.len(), 3072);
    assert_eq!(numbers(&f.a[..6]), vec![-1.0, -1.0, 1.0, -1.0, -0.9375, 1.0]);
    assert_eq!(numbers(&f.a[3069..]), vec![0.9375, 0.9375, 1.0]);
    let mut normal = [0.0; 9];
    for row in f.a.chunks(3) {
        for i in 0..3 {
            for j in 0..3 {
                normal[i * 3 + j] += row[i].0 * row[j].0;
            }
        }
    }
    for i in 0..3 {
        for j in 0..3 {
            let entry: f64 = (0..3).map(|k| normal[i * 3 + k] * f.a_t_a_inv[k * 3 + j].0).sum();
            assert!(close(entry, if i == j { 1.0 } else { 0.0 }));
        }
    }
}

#[test]
fn noise_is_flat_and_texture_is_not() {
    let f: FlatBlockFinder<F> = FlatBlockFinder::new();
    let noise = grid(96, 32, 77, 3);
    // A slope without noise, a slope with noise, and stripes.
    let p = plane(96, 32, (1, 1), 1, |x, y| match x / 32 {
        0 => 50 + (x + y) as u8,
        1 => 20 + x as u8 + noise[y * 96 + x],
        _ => if x % 4 < 2 { 40 } else { 200 },
    });
    let (marks, num) = f.run(&p);
    assert_eq!(marks, vec![0, 255, 0]);
    assert_eq!(num, 1);
    assert_eq!(f.score_block(&p, 0), (false, 0));
    let (flat, rank) = f.score_block(&p, 1);
    assert!(flat);
    assert!(rank > f.score_block(&p, 2).1);
}

#[test]
fn blocks_at_the_edge_repeat_the_last_pixels() {
    let f: FlatBlockFinder<F> = FlatBlockFinder::new();
    let noise = grid(40, 40, 8, 3);
    let p = plane(40, 40, (1, 1), 0, |x, y| 80 + noise[y * 40 + x]);
    let whole = plane(64, 64, (1, 1), 0, |x, y| 80 + noise[y.min(39) * 40 + x.min(39)]);
    for index in 0..4 {
        assert_eq!(f.score_block(&p, index), f.score_block(&whole, index));
    }
    assert_eq!(f.run(&p), f.run(&whole));
}

#[test]
fn the_score_of_a_block_is_a_sigmoid() {
    // A ramp along the rows: the gradient is a hundredth everywhere.
    let block: Vec<F> = (0..1024).map(|k| Real((k % 32) as f64 / 100.0)).collect();
    let (flat, rank) = judge(&block);
    assert!(!flat);
    let var: f64 = (30.0 * 30.0 - 1.0) / 12.0 / 10_000.0;
    let (trace, norm) = (1e-4, 1e-4);
    let ratio = norm / 1e-6;
    let sum: f64 = -12434.0 * norm + 13087.0 * trace - 6682.0 * var - 0.2056 * ratio + 2.5694;
    let score = 1.0 / (1.0 + (-sum.clamp(-25.0, 100.0)).exp());
    let found = f32::from_bits(rank);
    assert!((f64::from(found) - score).abs() <= 1e-6 * score);
    assert_eq!(judge(&reals(&[0.0; 1024])), (false, 0));
}

#[test]
fn a_refusal_comes_before_any_look_at_the_planes() {
    let mut m: NoiseModel<F> = NoiseModel::new();
    let refused = NoiseStatus::Error(NoiseError::NotEnoughFlatBlocks);
    // A frame that is smaller than the filter reaches.
    let tiny = monochrome(plane(2, 2, (1, 1), 0, |x, y| (x + y) as u8));
    assert_eq!(m.update(&tiny, &tiny, &[1]), refused);
    // Planes that do not fit each other, and marks that do not fit either.
    let wide = color(3, true);
    assert_eq!(m.update(&wide, &tiny, &[0, 7, 0, 0, 0, 0, 0]), refused);
    assert_eq!(m.update(&tiny, &wide, &[]), refused);
    assert_eq!(m.combined_state.y.num_observations, 0);
}

#[test]
fn an_update_begins_with_the_flat_blocks() {
    let mut m: NoiseModel<F> = NoiseModel::new();
    let source = monochrome(noisy(64, 64, (1, 1), 1));
    let denoised = monochrome(smooth(64, 64, (1, 1)));
    assert_eq!(m.update(&source, &denoised, &[1; 4]), NoiseStatus::Updated);
    assert_eq!(m.begin_update(&[0, 255, 0, 1]), Ok(vec![1, 3]));
    assert_eq!(numbers(&m.latest_state.y.eqns.a), vec![0.0; 576]);
    assert_eq!(m.latest_state.y.num_observations, 0);
    assert_eq!(m.begin_update(&[0, 0, 0, 1]), Err(NoiseError::NotEnoughFlatBlocks));
    assert_eq!(m.begin_update(&[]), Err(NoiseError::NotEnoughFlatBlocks));
}

#[test]
fn only_zero_marks_matter() {
    let source = color(11, true);
    let denoised = color(11, false);
    let mut m: NoiseModel<F> = NoiseModel::new();
    let mut other = m.clone();
    assert_eq!(m.update(&source, &denoised, &[1, 255, 0, 1]), NoiseStatus::Updated);
    assert_eq!(other.update(&source, &denoised, &[7, 1, 0, 255]), NoiseStatus::Updated);
    assert_eq!(m.combined_state.y.eqns.a, other.combined_state.y.eqns.a);
    assert_eq!(m.combined_state.cr.eqns.x, other.combined_state.cr.eqns.x);
    assert_eq!(
        m.combined_state.cb.strength_solver.eqns.x,
        other.combined_state.cb.strength_solver.eqns.x
    );
}

#[test]
fn a_clone_is_on_its_own() {
    let source = color(11, true);
    let denoised = color(11, false);
    let mut m: NoiseModel<F> = NoiseModel::new();
    assert_eq!(m.update(&source, &denoised, &[1; 4]), NoiseStatus::Updated);
    let mut other = m.clone();
    assert_eq!(other.coords, m.coords);
    assert_eq!(other.combined_state.y.eqns.a, m.combined_state.y.eqns.a);
    assert_eq!(other.latest_state.cb.ar_gain, m.latest_state.cb.ar_gain);
    let blocks = m.combined_state.y.strength_solver.num_equations;
    assert_eq!(other.update(&source, &denoised, &[1; 4]), NoiseStatus::Updated);
    assert_eq!(m.combined_state.y.strength_solver.num_equations, blocks);
    assert_eq!(other.combined_state.y.strength_solver.num_equations, 2 * blocks);
    let f: FlatBlockFinder<F> = FlatBlockFinder::new();
    assert_eq!(f.clone().a_t_a_inv, f.a_t_a_inv);
}

#[test]
fn the_search_sees_the_picture_only() {
    let f: FlatBlockFinder<F> = FlatBlockFinder::new();
    let noise = grid(70, 40, 5, 3);
    let pixel = |x: usize, y: usize| 60 + (x / 3) as u8 + noise[y * 70 + x];
    let bare = f.run(&plane(70, 40, (1, 1), 0, pixel));
    assert_eq!(bare, f.run(&plane(70, 40, (1, 1), 3, pixel)));
    let mut framed = plane(70, 40, (1, 1), 6, pixel);
    framed.data[0] = 255;
    assert_eq!(bare, f.run(&framed));
}

#[test]
fn observations_add_up_to_products() {
    let mut s: EquationSystem<F> = EquationSystem::new(2);
    add_ar_observation_n::<F, 2>(&mut s, &reals(&[1.0, 2.0]), Real(3.0));
    mirror_upper_triangle(&mut s);
    assert_eq!(numbers(&s.a), vec![1.0, 2.0, 2.0, 4.0]);
    assert_eq!(numbers(&s.b), vec![3.0, 6.0]);
    add_ar_observation_n::<F, 2>(&mut s, &reals(&[5.0, -1.0]), Real(2.0));
    mirror_upper_triangle(&mut s);
    assert_eq!(numbers(&s.a), vec![26.0, -3.0, -3.0, 5.0]);
    assert_eq!(numbers(&s.b), vec![13.0, 4.0]);
}

#[test]
fn chunks_and_measurements_are_put_together() {
    let chunks = vec![
        (system(&[1.0, 2.0, 0.0, 4.0], &[5.0, 6.0]), 3),
        (system(&[10.0, 20.0, 0.0, 40.0], &[50.0, 60.0]), 4),
    ];
    let (sum, num) = sum_chunks(2, &chunks);
    assert_eq!(numbers(&sum.a), vec![11.0, 22.0, 0.0, 44.0]);
    assert_eq!(numbers(&sum.b), vec![55.0, 66.0]);
    assert_eq!(num, 7);
    assert_eq!(sum_chunks::<F>(2, &vec![]).1, 0);

    let measurements = vec![Some((Real(0.0), Real(2.0))), None, Some((Real(255.0), Real(4.0)))];
    let s: StrengthSolver<F> = solver_of(2, &measurements);
    assert_eq!(numbers(&s.eqns.a), vec![1.0, 0.0, 0.0, 1.0]);
    assert_eq!(numbers(&s.eqns.b), vec![2.0, 4.0]);
    assert_eq!((s.num_equations, s.total.0), (2, 6.0));
}

#[test]
fn luma_noise_is_for_chroma_only() {
    let mut luma: NoiseModelState<F> = NoiseModelState::new(24);
    luma.ar_gain = Real(3.0);
    let mut chroma: NoiseModelState<F> = NoiseModelState::new(25);
    chroma.eqns.x[24] = Real(0.25);
    let noise = luma_noise_of(1, 24, &chroma, Some(&luma)).unwrap();
    assert_eq!((noise.corr.0, noise.gain.0), (0.25, 3.0));
    assert!(luma_noise_of(0, 24, &luma, Some(&luma)).is_none());
    assert!(luma_noise_of(0, 24, &luma, None).is_none());
}

#[test]
fn luma_noise_is_taken_off_down_to_a_quarter() {
    let source = noisy(64, 32, (1, 1), 12);
    let denoised = smooth(64, 32, (1, 1));
    let flat = [1u8, 1];
    let survey = ChannelSurvey {
        source: &source,
        denoised: &denoised,
        alt: None,
        frame_dims: (64, 32),
        flat_blocks: &flat,
        num_blocks_w: 2,
    };
    let mut solver: StrengthSolver<F> = StrengthSolver::new(2);
    solver.eqns.x = reals(&[1.0, 2.0]);
    let total = |gain: f64| {
        let luma = Some(LumaNoise { corr: Real(0.5), gain: Real(gain), solver: &solver });
        survey.measure_strength(Real::<false>(2.0), &luma, 20, &vec![0, 1]).total.0
    };
    let all = total(0.0);
    assert!(all > 0.0);
    assert!(total(1.0) < all && total(1.0) > all / 4.0);
    assert!(close(total(1000.0), all / 4.0));
}

#[test]
fn each_measurement_has_a_weight_of_one() {
    let mut s: StrengthSolver<F> = StrengthSolver::new(5);
    let measured = [(10.0, 3.0), (63.75, 1.0), (100.0, 2.5), (254.0, 4.0), (-3.0, 0.5)];
    for (mean, strength) in measured {
        s.add_measurement(Real(mean), Real(strength));
    }
    let sum = |v: &[F]| v.iter().map(|x| x.0).sum::<f64>();
    assert!(close(sum(&s.eqns.a), 5.0));
    assert!(close(sum(&s.eqns.b), 11.0));
    assert!(close(s.total.0, 11.0));
    for i in 0..5 {
        for j in 0..5 {
            assert_eq!(s.eqns.a[i * 5 + j], s.eqns.a[j * 5 + i]);
        }
    }
}

#[test]
fn the_interpolation_goes_through_the_bins() {
    let mut s: StrengthSolver<F> = StrengthSolver::new(4);
    s.eqns.x = reals(&[4.0, 1.0, 9.0, 2.0]);
    for (k, strength) in [4.0, 1.0, 9.0, 2.0].into_iter().enumerate() {
        assert!(close(s.get_value(Real(85.0 * k as f64)).0, strength));
    }
    assert!(close(s.get_value(Real(42.5)).0, 2.5));
    assert!(close(s.get_value(Real(127.5)).0, 5.0));
}

#[test]
fn adding_solvers_is_measuring_both() {
    let first = [(10.0, 3.0), (80.0, 1.0)];
    let second = [(200.0, 2.5), (15.0, 4.0), (90.0, 0.5)];
    let of = |ms: &[(f64, f64)]| {
        let mut s: StrengthSolver<F> = StrengthSolver::new(6);
        for (mean, strength) in ms {
            s.add_measurement(Real(*mean), Real(*strength));
        }
        s
    };
    let sum = of(&first).add(&of(&second));
    let both = of(&[first[0], first[1], second[0], second[1], second[2]]);
    for (p, q) in sum.eqns.a.iter().zip(both.eqns.a.iter()) {
        assert!(close(p.0, q.0));
    }
    for (p, q) in sum.eqns.b.iter().zip(both.eqns.b.iter()) {
        assert!(close(p.0, q.0));
    }
    assert_eq!(sum.num_equations, both.num_equations);
    assert!(close(sum.total.0, both.total.0));
}

#[test]
fn a_constant_strength_is_found() {
    let mut s: StrengthSolver<F> = StrengthSolver::new(20);
    for mean in [3.0, 50.0, 51.0, 140.0, 250.0] {
        s.add_measurement(Real(mean), Real(1.75));
    }
    assert!(s.solve());
    for x in numbers(&s.eqns.x) {
        assert!((x - 1.75).abs() <= 1e-6);
    }
    assert!((s.get_value(Real(95.0)).0 - 1.75).abs() <= 1e-6);
}

#[test]
fn what_was_saved_is_not_different() {
    let source = color(11, true);
    let denoised = color(11, false);
    let mut m: NoiseModel<F> = NoiseModel::new();
    assert_eq!(m.update(&source, &denoised, &[1; 4]), NoiseStatus::Updated);
    m.save_latest();
    assert!(!is_different(&m.latest_state.y, &m.combined_state.y));
    assert!(!is_different(&m.latest_state.cb, &m.combined_state.cb));
    assert!(!is_different(&m.latest_state.cr, &m.combined_state.cr));
    let mut blank: NoiseModel<F> = NoiseModel::new();
    blank.save_latest();
    assert!(!is_different(&blank.latest_state.y, &blank.combined_state.y));
}

#[test]
fn scaling_points_increase_from_end_to_end() {
    let source = color(11, true);
    let denoised = color(11, false);
    let mut m: NoiseModel<F> = NoiseModel::new();
    assert_eq!(m.update(&source, &denoised, &[1; 4]), NoiseStatus::Updated);
    for (k, state) in [
        &mut m.combined_state.y,
        &mut m.combined_state.cb,
        &mut m.combined_state.cr,
    ]
    .into_iter()
    .enumerate()
    {
        let mut dice = Dice(k as u64);
        state.strength_solver.eqns.x = (0..20).map(|_| Real(dice.roll(64) as f64 / 8.0)).collect();
    }
    let g = m.get_grain_parameters(0, 1);
    assert_eq!(g.scaling_points_y.len(), 14);
    assert_eq!(g.scaling_points_cb.len(), 10);
    let curves: [Vec<u8>; 3] = [
        g.scaling_points_y.iter().map(|p| p[0]).collect(),
        g.scaling_points_cb.iter().map(|p| p[0]).collect(),
        g.scaling_points_cr.iter().map(|p| p[0]).collect(),
    ];
    for places in curves {
        assert_eq!(places[0], 0);
        assert_eq!(places[places.len() - 1], 255);
        assert!(places.windows(2).all(|w| w[0] < w[1]));
    }
}

#[test]
fn an_update_can_be_repeated() {
    let source = color(31, true);
    let denoised = color(31, false);
    let mut m: NoiseModel<F> = NoiseModel::new();
    assert_eq!(m.update(&source, &denoised, &[1, 1, 0, 1]), NoiseStatus::Updated);
    let mut other = m.clone();
    let status = m.update(&source, &denoised, &[1; 4]);
    assert_eq!(other.update(&source, &denoised, &[1; 4]), status);
    for (a, b) in [
        (&m.latest_state.y, &other.latest_state.y),
        (&m.latest_state.cr, &other.latest_state.cr),
        (&m.combined_state.y, &other.combined_state.y),
        (&m.combined_state.cb, &other.combined_state.cb),
    ] {
        assert_eq!(a.eqns.a, b.eqns.a);
        assert_eq!(a.eqns.x, b.eqns.x);
        assert_eq!(a.ar_gain, b.ar_gain);
        assert_eq!(a.strength_solver.eqns.x, b.strength_solver.eqns.x);
    }
}

/// Takes in a frame step by step, and lists the steps.
fn step_through(
    m: &mut NoiseModel<F>,
    source: &Frame<u8>,
    denoised: &Frame<u8>,
    flat: &[u8],
) -> (NoiseStatus, Vec<(char, usize)>) {
    let indices = m.begin_update(flat).unwrap();
    let monochrome = source.subsampling == ChromaSubsampling::Monochrome;
    let mut step = UpdateStep::Observe { channel: 0, failed: None };
    let mut log = Vec::new();
    loop {
        step = match step {
            UpdateStep::Observe { channel, failed } => {
                log.push(('o', channel));
                let survey = survey_plane(source, denoised, flat, channel);
                let stride = survey.source.geometry.stride;
                let offsets = coord_offsets(&m.coords, m.n, stride);
                let states = [&m.latest_state.y, &m.latest_state.cb, &m.latest_state.cr];
                let n = states[channel].eqns.n;
                let mut chunks = Vec::new();
                let mut from = 0;
                while from < indices.len() {
                    let to = indices.len().min(from + BLOCKS_PER_CHUNK);
                    chunks.push(survey.chunk_observations(&offsets, m.n, n, &indices, from, to));
                    from = to;
                }
                m.take_observations(channel, failed, &chunks, monochrome)
            }
            UpdateStep::Measure { channel, failed } => {
                log.push(('m', channel));
                let survey = survey_plane(source, denoised, flat, channel);
                let states = [&m.latest_state.y, &m.latest_state.cb, &m.latest_state.cr];
                let luma = if channel > 0 { Some(states[0]) } else { None };
                let noise = luma_noise_of(channel, m.n, states[channel], luma);
                let gain = states[channel].ar_gain;
                let measurements: Vec<_> =
                    indices.iter().map(|k| survey.noise_measurement(gain, &noise, *k)).collect();
                m.take_measurements(channel, failed, &measurements, monochrome)
            }
            UpdateStep::Combine => {
                log.push(('c', 0));
                UpdateStep::Done(m.combine(monochrome))
            }
            UpdateStep::Done(status) => return (status, log),
        };
    }
}

#[test]
fn steps_lead_to_the_same_model() {
    let source = color(11, true);
    let denoised = color(11, false);
    let mut m: NoiseModel<F> = NoiseModel::new();
    let mut other = m.clone();
    for flat in [[1, 1, 1, 1], [1, 0, 255, 1]] {
        let status = m.update(&source, &denoised, &flat);
        let (stepped, log) = step_through(&mut other, &source, &denoised, &flat);
        assert_eq!(stepped, status);
        assert_eq!(
            log,
            [('o', 0), ('m', 0), ('o', 1), ('m', 1), ('o', 2), ('m', 2), ('c', 0)]
        );
        for (a, b) in [
            (&m.latest_state.y, &other.latest_state.y),
            (&m.latest_state.cb, &other.latest_state.cb),
            (&m.combined_state.y, &other.combined_state.y),
            (&m.combined_state.cr, &other.combined_state.cr),
        ] {
            assert_eq!(a.eqns.a, b.eqns.a);
            assert_eq!(a.eqns.x, b.eqns.x);
            assert_eq!(a.ar_gain, b.ar_gain);
            assert_eq!(a.num_observations, b.num_observations);
            assert_eq!(a.strength_solver.eqns.x, b.strength_solver.eqns.x);
            assert_eq!(a.strength_solver.total, b.strength_solver.total);
        }
    }
}

#[test]
fn steps_end_where_the_update_does() {
    let source = monochrome(noisy(64, 64, (1, 1), 1));
    let denoised = monochrome(smooth(64, 64, (1, 1)));
    let mut m: NoiseModel<F> = NoiseModel::new();
    let (status, log) = step_through(&mut m, &source, &denoised, &[1; 4]);
    assert_eq!(status, NoiseStatus::Updated);
    assert_eq!(log, [('o', 0), ('m', 0), ('c', 0)]);
    // Without noise there are no coefficients.
    let frame = color(1, false);
    let mut m: NoiseModel<F> = NoiseModel::new();
    let (status, log) = step_through(&mut m, &frame, &frame, &[1; 4]);
    assert_eq!(status, NoiseStatus::Error(NoiseError::LatestSystemUnsolved));
    assert_eq!(log, [('o', 0)]);
}

#[test]
fn chroma_steps_go_on_after_a_failure() {
    let mut m: NoiseModel<F> = NoiseModel::new();
    let why = NoiseError::LatestStrengthUnsolved;
    // Measurements that are not numbers cannot be solved for.
    let bad = vec![Some((Real(10.0), Real(f64::NAN))), Some((Real(f64::NAN), Real(1.0)))];
    let step = m.take_measurements(1, None, &bad, false);
    assert_eq!(step, UpdateStep::Observe { channel: 2, failed: Some(why) });
    let good = vec![Some((Real(10.0), Real(1.0))), None, Some((Real(90.0), Real(2.0)))];
    let step = m.take_measurements(2, Some(why), &good, false);
    assert_eq!(step, UpdateStep::Done(NoiseStatus::Error(why)));
    assert_eq!(m.latest_state.cr.strength_solver.num_equations, 2);
    assert_eq!(m.take_measurements(2, None, &good, false), UpdateStep::Combine);
    assert_eq!(
        m.take_measurements(0, None, &good, false),
        UpdateStep::Observe { channel: 1, failed: None }
    );
}
