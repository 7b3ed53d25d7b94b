use numerical_methods::inverse_power_method::inverse_power_method_with_cap;
use numerical_methods::lu::LUDecomposition;
use numerical_methods::power_method::power_method_with_cap;
use numerical_methods::qr_algorithm::{hessenberg_form, qr_algorithm_with_cap, qr_iteration};
use numerical_methods::scalar::{Index, Numerical, OtherNumericalOps};

#[derive(Clone, Copy, Debug, PartialEq)]
struct Real(f64);

impl OtherNumericalOps for Real {
    fn abs_spec(self) -> Self {
        Real(self.0.abs())
    }

    fn sqrt_spec(self) -> Self {
        Real(self.0.sqrt())
    }

    fn zero_spec() -> Self {
        Real(0.0)
    }

    fn abs_trait(&self) -> Self {
        self.abs_spec()
    }

    fn sqrt_trait(&self) -> Self {
        self.sqrt_spec()
    }

    fn zero() -> Self {
        Self::zero_spec()
    }
}

impl Numerical for Real {
    fn add_spec(self, rhs: Self) -> Self {
        Real(self.0 + rhs.0)
    }

    fn sub_spec(self, rhs: Self) -> Self {
        Real(self.0 - rhs.0)
    }

    fn mul_spec(self, rhs: Self) -> Self {
        Real(self.0 * rhs.0)
    }

    fn div_spec(self, rhs: Self) -> Self {
        Real(self.0 / rhs.0)
    }

    fn neg_spec(self) -> Self {
        Real(-self.0)
    }

    fn lt_spec(self, rhs: Self) -> bool {
        self.0 < rhs.0
    }

    fn le_spec(self, rhs: Self) -> bool {
        self.0 <= rhs.0
    }

    fn eq_spec(self, rhs: Self) -> bool {
        self.0 == rhs.0
    }

    fn max_spec(self, rhs: Self) -> Self {
        Real(self.0.max(rhs.0))
    }

    fn from_i32_spec(value: i32) -> Self {
        Real(f64::from(value))
    }

    fn from_index_spec(value: Index) -> Self {
        Real(value as f64)
    }

    fn total_le_spec(self, rhs: Self) -> bool {
        self.0.total_cmp(&rhs.0) != std::cmp::Ordering::Greater
    }

    fn add(self, rhs: Self) -> Self {
        self.add_spec(rhs)
    }

    fn sub(self, rhs: Self) -> Self {
        self.sub_spec(rhs)
    }

    fn mul(self, rhs: Self) -> Self {
        self.mul_spec(rhs)
    }

    fn div(self, rhs: Self) -> Self {
        self.div_spec(rhs)
    }

    fn neg(self) -> Self {
        self.neg_spec()
    }

    fn lt(self, rhs: Self) -> bool {
        self.lt_spec(rhs)
    }

    fn le(self, rhs: Self) -> bool {
        self.le_spec(rhs)
    }

    fn eq(self, rhs: Self) -> bool {
        self.eq_spec(rhs)
    }

    fn max(self, rhs: Self) -> Self {
        self.max_spec(rhs)
    }

    fn from_i32(value: i32) -> Self {
        Self::from_i32_spec(value)
    }

    fn from_index(value: Index) -> Self {
        Self::from_index_spec(value)
    }

    fn total_le(self, rhs: Self) -> bool {
        self.total_le_spec(rhs)
    }

    fn total_le_is_total(_a: Self, _b: Self) {}

    fn total_le_is_transitive(_a: Self, _b: Self, _c: Self) {}
}

fn reals(values: &[f64]) -> Vec<Real> {
    values.iter().map(|v| Real(*v)).collect()
}

fn floats(values: &[Real]) -> Vec<f64> {
    values.iter().map(|v| v.0).collect()
}


// The algorithms once more, written out as loops over one buffer in double
// precision. The library has to agree with them to the last bit.

fn dot_loop(x: &[f64], y: &[f64]) -> f64 {
    let mut r: f64 = 0.0;
    for i in 0..x.len() {
        r += x[i] * y[i];
    }
    r
}

fn substitute_loop(upper: bool, matrix: &[f64], permutation: &[usize], x: &mut [f64]) {
    let dimension = permutation.len();
    for kk in 0..dimension {
        let k = if upper { permutation[dimension - 1 - kk] } else { permutation[kk] };
        let v = x[k];
        x[k] = 0.0;
        x[k] = (v - dot_loop(&matrix[k * dimension..k * dimension + dimension], x))
            / matrix[k * dimension + k];
    }
}

struct Factors {
    lower: Vec<f64>,
    upper: Vec<f64>,
    permutation: Vec<usize>,
}

fn factor_loop(matrix: &[f64], dimension: usize) -> Option<Factors> {
    let mut lower: Vec<f64> = vec![0.0; dimension * dimension];
    let mut upper: Vec<f64> = vec![0.0; dimension * dimension];
    let mut permutation: Vec<usize> = (0..dimension).collect();
    let mut inverse_permutation: Vec<usize> = (0..dimension).collect();
    let mut row_used = vec![false; dimension];
    for k in 0..dimension {
        lower[dimension * k + k] = 1.0;
    }
    for k in 0..dimension {
        let mut column: Vec<f64> = vec![0.0; dimension];
        for i in 0..dimension {
            column[i] = matrix[dimension * i + k];
        }
        substitute_loop(false, &lower, &permutation, &mut column);
        let mut pivot_row = 0;
        for i in 0..dimension {
            if !row_used[i] && (row_used[pivot_row] || column[i].abs() > column[pivot_row].abs()) {
                pivot_row = i;
            }
        }
        let pivot_value = column[pivot_row];
        if pivot_value.abs() < 1e-7 {
            return None;
        }
        row_used[pivot_row] = true;
        for i in 0..dimension {
            if row_used[i] {
                upper[dimension * i + pivot_row] = column[i];
            } else {
                lower[dimension * i + pivot_row] = column[i] / pivot_value;
            }
        }
        let ipr = inverse_permutation[pivot_row];
        let pk = permutation[k];
        permutation[k] = pivot_row;
        inverse_permutation[pivot_row] = k;
        permutation[ipr] = pk;
        inverse_permutation[pk] = ipr;
    }
    Some(Factors { lower, upper, permutation })
}

fn solve_loop(factors: &Factors, x: &mut Vec<f64>) {
    substitute_loop(false, &factors.lower, &factors.permutation, x);
    substitute_loop(true, &factors.upper, &factors.permutation, x);
    let mut temp = vec![0.0; x.len()];
    for i in 0..x.len() {
        temp[i] = x[factors.permutation[i]];
    }
    *x = temp;
}

fn power_loop(matrix: &[f64], dimension: usize, cap: usize) -> Option<(f64, Vec<f64>)> {
    let mut y_vector: Vec<f64> = vec![0.0; dimension];
    let mut z_vector: Vec<f64> = vec![0.0; dimension];
    let mut largest: usize = 0;
    for i in 1..dimension {
        if matrix[largest * dimension + largest].abs() < matrix[i * dimension + i].abs() {
            largest = i;
        }
    }
    y_vector[largest] = 1.0;
    let mut previous_lambda: Vec<f64> = vec![0.0; dimension];
    let mut previous_lambda_valid = vec![false; dimension];
    let mut current_lambda: Vec<f64> = vec![0.0; dimension];
    let mut current_lambda_valid = vec![false; dimension];
    let mut did_converge = false;
    for _ in 0..cap {
        let mut norm: f64 = 0.0;
        for i in 0..dimension {
            norm += y_vector[i].abs();
        }
        for i in 0..dimension {
            z_vector[i] = y_vector[i] / norm;
        }
        for i in 0..dimension {
            y_vector[i] = dot_loop(&matrix[i * dimension..i * dimension + dimension], &z_vector);
        }
        for i in 0..dimension {
            previous_lambda[i] = current_lambda[i];
            previous_lambda_valid[i] = current_lambda_valid[i];
            if z_vector[i].abs() < 1e-8 {
                current_lambda_valid[i] = false;
                current_lambda[i] = 0.0;
            } else {
                current_lambda_valid[i] = true;
                current_lambda[i] = y_vector[i] / z_vector[i];
            }
        }
        let (mut prev_norm, mut cur_norm, mut diff_norm): (f64, f64, f64) = (0.0, 0.0, 0.0);
        for i in 0..dimension {
            if previous_lambda_valid[i] {
                prev_norm += previous_lambda[i].abs();
            }
        }
        for i in 0..dimension {
            if current_lambda_valid[i] {
                cur_norm += current_lambda[i].abs();
            }
        }
        for i in 0..dimension {
            if previous_lambda_valid[i] || current_lambda_valid[i] {
                diff_norm += (previous_lambda[i] - current_lambda[i]).abs();
            }
        }
        if diff_norm < 1e-6 * f64::max(prev_norm, cur_norm) {
            did_converge = true;
            break;
        }
    }
    if !did_converge {
        return None;
    }
    let mut r: f64 = 0.0;
    let mut k = 0;
    for i in 0..dimension {
        if current_lambda_valid[i] {
            k += 1;
            r += current_lambda[i];
        }
    }
    let value = r / (k as f64);
    let mut norm: f64 = 0.0;
    for i in 0..dimension {
        norm += y_vector[i].abs();
    }
    for i in 0..dimension {
        z_vector[i] = y_vector[i] / norm;
    }
    Some((value, z_vector))
}

fn inverse_loop(matrix: &[f64], dimension: usize, initial: f64, cap: usize) -> Option<(f64, Vec<f64>)> {
    let mut y_vector: Vec<f64> = vec![0.0; dimension];
    let mut z_vector: Vec<f64> = vec![0.0; dimension];
    let mut system_matrix = matrix.to_vec();
    let mut shift = initial;
    let mut stop_shifting = false;
    let mut lu: Option<Factors> = None;
    let mut nearest = 0;
    for i in 1..dimension {
        if (matrix[dimension * i + i] - initial).abs()
            < (matrix[dimension * nearest + nearest] - initial).abs()
        {
            nearest = i;
        }
    }
    y_vector[nearest] = 1.0;
    for _ in 0..cap {
        for k in 0..dimension {
            z_vector[k] = y_vector[k];
        }
        if !stop_shifting {
            for k in 0..dimension {
                system_matrix[dimension * k + k] = matrix[dimension * k + k] - shift;
            }
            match factor_loop(&system_matrix, dimension) {
                Some(computed) => lu = Some(computed),
                None => stop_shifting = true,
            }
        }
        solve_loop(lu.as_ref()?, &mut y_vector);
        let mu = if !stop_shifting {
            let mut count = 0;
            let mut mu: f64 = 0.0;
            for k in 0..dimension {
                if y_vector[k].abs() >= 1e-8 {
                    count += 1;
                    mu += z_vector[k] / y_vector[k];
                }
            }
            mu / (count as f64)
        } else {
            0.0
        };
        let mut norm: f64 = 0.0;
        for k in 0..dimension {
            norm += y_vector[k].abs();
        }
        for k in 0..dimension {
            y_vector[k] = y_vector[k] / norm;
        }
        let (mut z_norm, mut y_norm, mut diff_norm): (f64, f64, f64) = (0.0, 0.0, 0.0);
        for k in 0..dimension {
            z_norm += z_vector[k].abs();
        }
        for k in 0..dimension {
            y_norm += y_vector[k].abs();
        }
        let mut y_sign: f64 = -1.0;
        for k in 0..dimension {
            if y_vector[k] * z_vector[k] > 0.0 {
                y_sign = 1.0;
                break;
            }
            if y_vector[k] * z_vector[k] < 0.0 {
                break;
            }
        }
        for k in 0..dimension {
            diff_norm += (y_sign * y_vector[k] - z_vector[k]).abs();
        }
        if diff_norm < 1e-6 * f64::max(z_norm, y_norm)
            && (mu.abs() < 1e-6 * f64::max(shift.abs(), (shift + mu).abs()) || stop_shifting)
        {
            return Some((shift, y_vector));
        } else {
            shift += mu;
        }
    }
    None
}

fn reflection_loop(vector: &[f64], direction: &mut [f64], scale: &mut f64) -> f64 {
    let dimension = vector.len();
    let mut r: f64 = 0.0;
    for k in 0..dimension {
        r += vector[k] * vector[k];
    }
    let length = r.sqrt();
    direction[0] = vector[0] - length;
    for k in 1..dimension {
        direction[k] = vector[k];
    }
    *scale = 0.0;
    for k in 0..dimension {
        *scale += direction[k] * direction[k];
    }
    length
}

fn hessenberg_loop(matrix: &mut [f64], dimension: usize) {
    if dimension < 3 {
        return;
    }
    let mut direction: Vec<f64> = vec![0.0; dimension];
    let mut scale: f64 = 0.0;
    let mut working_column: Vec<f64> = vec![0.0; dimension];
    for col in 0..dimension - 2 {
        for k in col + 1..dimension {
            working_column[k] = matrix[dimension * k + col];
        }
        let length = reflection_loop(
            &working_column[col + 1..dimension],
            &mut direction[col + 1..dimension],
            &mut scale,
        );
        if scale == 0.0 {
            continue;
        }
        matrix[dimension * (col + 1) + col] = length;
        for r in col + 2..dimension {
            matrix[dimension * r + col] = 0.0;
        }
        for c in col + 1..dimension {
            let mut res: f64 = 0.0;
            for k in col + 1..dimension {
                res += direction[k] * matrix[dimension * k + c];
            }
            let coeficient = -(2 as f64) * res / scale;
            for r in col + 1..dimension {
                matrix[dimension * r + c] += coeficient * direction[r];
            }
        }
        for r in 0..dimension {
            let mut res: f64 = 0.0;
            for k in col + 1..dimension {
                res += direction[k] * matrix[dimension * r + k];
            }
            let coeficient = -(2 as f64) * res / scale;
            for c in col + 1..dimension {
                matrix[dimension * r + c] += coeficient * direction[c];
            }
        }
    }
}

fn qr_iteration_loop(matrix: &mut [f64], dimension: usize) {
    let mut reflections: Vec<f64> = vec![0.0; 2 * (dimension - 1)];
    let mut scales: Vec<f64> = vec![0.0; dimension - 1];
    let mut work_vector: Vec<f64> = vec![0.0; 2];
    for col in 0..dimension - 1 {
        work_vector[0] = matrix[dimension * col + col];
        work_vector[1] = matrix[dimension * (col + 1) + col];
        let length = reflection_loop(
            &work_vector,
            &mut reflections[col * 2..col * 2 + 2],
            &mut scales[col],
        );
        let scale = scales[col];
        let reflection = &reflections[col * 2..col * 2 + 2];
        if scale == 0.0 {
            continue;
        }
        matrix[dimension * col + col] = length;
        matrix[dimension * (col + 1) + col] = 0.0;
        for c in col + 1..dimension {
            let coeficient = -(2 as f64)
                * (reflection[0] * matrix[dimension * col + c]
                    + reflection[1] * matrix[dimension * (col + 1) + c])
                / scale;
            matrix[dimension * col + c] += coeficient * reflection[0];
            matrix[dimension * (col + 1) + c] += coeficient * reflection[1];
        }
    }
    for k in 0..dimension - 1 {
        let scale = scales[k];
        let reflection = &reflections[k * 2..k * 2 + 2];
        if scale == 0.0 {
            continue;
        }
        for r in 0..dimension {
            let coeficient = -(2 as f64)
                * (reflection[0] * matrix[dimension * r + k]
                    + reflection[1] * matrix[dimension * r + k + 1])
                / scale;
            matrix[dimension * r + k] += coeficient * reflection[0];
            matrix[dimension * r + k + 1] += coeficient * reflection[1];
        }
    }
}

fn qr_loop(matrix: &[f64], dimension: usize, cap: usize) -> Option<Vec<f64>> {
    let mut work_matrix = matrix.to_owned();
    let mut work_dimension = dimension;
    let mut values: Vec<f64> = vec![];
    hessenberg_loop(&mut work_matrix, dimension);
    let mut did_converge = false;
    for _ in 0..cap {
        let shift = work_matrix[work_dimension * work_dimension - 1];
        for k in 0..work_dimension {
            work_matrix[work_dimension * k + k] -= shift;
        }
        qr_iteration_loop(&mut work_matrix, work_dimension);
        for k in 0..work_dimension {
            work_matrix[work_dimension * k + k] += shift;
        }
        if work_matrix[work_dimension * work_dimension - 2].abs() < 1e-8 {
            values.push(work_matrix[work_dimension * work_dimension - 1]);
            if work_dimension == 2 {
                values.push(work_matrix[0]);
                did_converge = true;
                break;
            }
            for r in 1..work_dimension - 1 {
                for c in 0..work_dimension - 1 {
                    work_matrix[(work_dimension - 1) * r + c] = work_matrix[work_dimension * r + c];
                }
            }
            work_dimension -= 1;
            work_matrix.resize(work_dimension * work_dimension, 0.0);
        }
    }
    values.sort_by(f64::total_cmp);
    if did_converge {
        Some(values)
    } else {
        None
    }
}

fn bits(values: &[f64]) -> Vec<u64> {
    values.iter().map(|v| v.to_bits()).collect()
}

fn samples() -> Vec<(usize, Vec<f64>)> {
    let mut state: u64 = 0x9e37_79b9_7f4a_7c15;
    let mut next = move || {
        state = state.wrapping_mul(6364136223846793005).wrapping_add(1442695040888963407);
        ((state >> 11) as f64 / (1u64 << 53) as f64 - 0.5) * 10.0
    };
    let mut all = vec![
        (2, vec![2.0, 0.0, 0.0, 1.0]),
        (2, vec![2.0, 1.0, 1.0, 3.0]),
        (2, vec![0.0, -1.0, 1.0, 0.0]),
        (3, vec![3.0, 0.0, 0.0, 0.0, 1.0, 0.0, 0.0, 0.0, 2.0]),
        (3, vec![0.0, 2.0, 3.0, 1.0, 2.0, 4.0, 4.0, 5.0, 6.0]),
        (3, vec![1.0, 2.0, 3.0, 0.0, 0.0, 0.0, 4.0, 5.0, 6.0]),
        (4, vec![4.0, 1.0, -2.0, 2.0, 1.0, 2.0, 0.0, 1.0, -2.0, 0.0, 3.0, -2.0, 2.0, 1.0, -2.0, -1.0]),
    ];
    for n in [2usize, 3, 4, 5, 7] {
        for _ in 0..4 {
            all.push((n, (0..n * n).map(|_| next()).collect()));
        }
        // A symmetric one, whose eigenvalues are real.
        let mut symmetric = vec![0.0; n * n];
        for i in 0..n {
            for j in i..n {
                let v = next();
                symmetric[i * n + j] = v;
                symmetric[j * n + i] = v;
            }
        }
        all.push((n, symmetric));
    }
    all
}

#[test]
fn factorisation_and_solve_agree_with_the_loops() {
    for (n, matrix) in samples() {
        let found = LUDecomposition::compute(&reals(&matrix), n);
        let expected = factor_loop(&matrix, n);
        assert_eq!(found.is_some(), expected.is_some());
        if let (Some(found), Some(expected)) = (found, expected) {
            let b: Vec<f64> = (0..n).map(|i| 1.0 + i as f64 * 0.75).collect();
            let mut x = reals(&b);
            found.solve(&mut x);
            let mut y = b.clone();
            solve_loop(&expected, &mut y);
            assert_eq!(bits(&floats(&x)), bits(&y));
        }
    }
}

#[test]
fn the_power_method_agrees_with_the_loops() {
    for (n, matrix) in samples() {
        for cap in [0, 1, 2, 10, 500] {
            let found = power_method_with_cap(&reals(&matrix), n, cap);
            let expected = power_loop(&matrix, n, cap);
            assert_eq!(found.is_some(), expected.is_some());
            if let (Some(found), Some((value, vector))) = (found, expected) {
                assert_eq!(found.value.0.to_bits(), value.to_bits());
                assert_eq!(bits(&floats(&found.vector)), bits(&vector));
            }
        }
    }
}

#[test]
fn the_inverse_power_method_agrees_with_the_loops() {
    for (n, matrix) in samples() {
        for initial in [-3.0, 0.9, 2.2] {
            for cap in [0, 1, 2, 10, 300] {
                let found = inverse_power_method_with_cap(&reals(&matrix), n, Real(initial), cap);
                let expected = inverse_loop(&matrix, n, initial, cap);
                assert_eq!(found.is_some(), expected.is_some());
                if let (Some(found), Some((value, vector))) = (found, expected) {
                    assert_eq!(found.value.0.to_bits(), value.to_bits());
                    assert_eq!(bits(&floats(&found.vector)), bits(&vector));
                }
            }
        }
    }
}

#[test]
fn the_hessenberg_form_agrees_with_the_loops() {
    for (n, matrix) in samples() {
        let mut found = reals(&matrix);
        hessenberg_form(&mut found, n);
        let mut expected = matrix.clone();
        hessenberg_loop(&mut expected, n);
        assert_eq!(bits(&floats(&found)), bits(&expected));
    }
}

#[test]
fn the_qr_step_agrees_with_the_loops() {
    for (n, matrix) in samples() {
        let mut found = reals(&matrix);
        hessenberg_form(&mut found, n);
        let mut expected = floats(&found);
        qr_iteration(&mut found, n);
        qr_iteration_loop(&mut expected, n);
        assert_eq!(bits(&floats(&found)), bits(&expected));
    }
}

#[test]
fn the_qr_algorithm_agrees_with_the_loops() {
    for (n, matrix) in samples() {
        for cap in [0, 1, 5, 40, 2000] {
            let found = qr_algorithm_with_cap(&reals(&matrix), n, cap);
            let expected = qr_loop(&matrix, n, cap);
            assert_eq!(found.is_some(), expected.is_some());
            if let (Some(found), Some(expected)) = (found, expected) {
                assert_eq!(bits(&floats(&found)), bits(&expected));
            }
        }
    }
}
