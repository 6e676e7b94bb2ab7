use vstd::prelude::*;
use crate::record::PlayerRecord;

verus! {

/// The largest count that the correlation terms accept.
pub const MAX_VALUE: usize = 0xffff_ffff;

/// The largest number of rows that the correlation terms accept.
pub const MAX_ROWS: usize = 0x7fff_ffff;

/// The square of `MAX_VALUE`.
pub const MAX_PRODUCT: i128 = 18446744065119617025;

/// The predictors of a record, in the feature matrix's column order.
pub open spec fn features_of(r: PlayerRecord) -> Seq<usize> {
    seq![r.attack_wins, r.defense_wins, r.donations, r.builder_tropies]
}

/// One row of predictors per record, in record order.
pub fn feature_matrix(records: &Vec<PlayerRecord>) -> (m: Vec<Vec<usize>>)
    ensures
        m@.len() == records@.len(),
        forall|i: int| 0 <= i < m@.len() ==> #[trigger] m@[i]@ == features_of(records@[i]),
{
    let mut m: Vec<Vec<usize>> = Vec::new();
    let mut i: usize = 0;
    while i < records.len()
        invariant
            i <= records@.len(),
            m@.len() == i,
            forall|k: int| 0 <= k < i ==> #[trigger] m@[k]@ == features_of(records@[k]),
        decreases records@.len() - i,
    {
        let r = &records[i];
        let row = vec![r.attack_wins, r.defense_wins, r.donations, r.builder_tropies];
        assert(row@ =~= features_of(records@[i as int]));
        m.push(row);
        i = i + 1;
    }
    m
}

/// The trophy count of each record, in record order.
pub fn target_vector(records: &Vec<PlayerRecord>) -> (t: Vec<usize>)
    ensures
        t@.len() == records@.len(),
        forall|i: int| 0 <= i < t@.len() ==> #[trigger] t@[i] == records@[i].trophies,
{
    let mut t: Vec<usize> = Vec::new();
    let mut i: usize = 0;
    while i < records.len()
        invariant
            i <= records@.len(),
            t@.len() == i,
            forall|k: int| 0 <= k < i ==> #[trigger] t@[k] == records@[k].trophies,
        decreases records@.len() - i,
    {
        t.push(records[i].trophies);
        i = i + 1;
    }
    t
}

/// The sum of the entries of `s`.
pub open spec fn sum_spec(s: Seq<usize>) -> int
    decreases s.len(),
{
    if s.len() == 0 {
        0
    } else {
        sum_spec(s.drop_last()) + s.last()
    }
}

/// The sum of the products of matching entries of `a` and `b`.
pub open spec fn dot_spec(a: Seq<usize>, b: Seq<usize>) -> int
    decreases a.len(),
{
    if a.len() == 0 || b.len() == 0 {
        0
    } else {
        dot_spec(a.drop_last(), b.drop_last()) + a.last() * b.last()
    }
}

/// `n * n` times the population covariance of `x` and `y`, `n` being their
/// length: `n * sum(x * y) - sum(x) * sum(y)`.
pub open spec fn scaled_covariance(x: Seq<usize>, y: Seq<usize>) -> int {
    x.len() * dot_spec(x, y) - sum_spec(x) * sum_spec(y)
}

/// `n * n` times the population variance of `x`.
pub open spec fn scaled_variance(x: Seq<usize>) -> int {
    scaled_covariance(x, x)
}

/// The Pearson correlation of a feature with the target, as exact terms:
/// the correlation is `covariance / sqrt(feature_variance * target_variance)`.
/// All three terms carry the same factor `n * n`, which cancels.
#[derive(Debug, Clone, Copy, PartialEq, Eq, Structural)]
pub enum Correlation {
    /// The feature or the target does not vary: the correlation is zero.
    Zero,
    /// Both vary; the terms are those of `correlation_spec`.
    Ratio { covariance: i128, feature_variance: i128, target_variance: i128 },
}

/// The correlation of feature values `x` with target values `y`.
pub open spec fn correlation_spec(x: Seq<usize>, y: Seq<usize>) -> Correlation {
    if scaled_variance(x) > 0 && scaled_variance(y) > 0 {
        Correlation::Ratio {
            covariance: scaled_covariance(x, y) as i128,
            feature_variance: scaled_variance(x) as i128,
            target_variance: scaled_variance(y) as i128,
        }
    } else {
        Correlation::Zero
    }
}

/// Column `j` of the matrix `m`.
pub open spec fn column(m: Seq<Vec<usize>>, j: int) -> Seq<usize> {
    Seq::new(m.len(), |i: int| m[i]@[j])
}

/// No entry of `s` exceeds `MAX_VALUE`.
pub open spec fn bounded(s: Seq<usize>) -> bool {
    forall|i: int| 0 <= i < s.len() ==> #[trigger] s[i] <= MAX_VALUE
}

/// The number of columns of `m`: the length of its first row.
pub open spec fn column_count(m: Seq<Vec<usize>>) -> int {
    if m.len() == 0 {
        0
    } else {
        m[0]@.len() as int
    }
}

/// Every row of `m` has as many entries as the first, none above `MAX_VALUE`.
pub open spec fn well_formed_matrix(m: Seq<Vec<usize>>) -> bool {
    &&& m.len() <= MAX_ROWS
    &&& forall|i: int| 0 <= i < m.len() ==> #[trigger] m[i]@.len() == column_count(m)
    &&& forall|i: int| 0 <= i < m.len() ==> bounded(#[trigger] m[i]@)
}

/// A product of two entries fits `MAX_PRODUCT`.
proof fn lemma_product_bound(a: int, b: int)
    requires
        0 <= a <= MAX_VALUE,
        0 <= b <= MAX_VALUE,
    ensures
        0 <= a * b <= MAX_PRODUCT,
{
    assert(0 <= a * b <= MAX_VALUE * MAX_VALUE) by (nonlinear_arith)
        requires
            0 <= a <= MAX_VALUE,
            0 <= b <= MAX_VALUE,
    ;
}

/// The sum of the entries of `s`.
fn total(s: &Vec<usize>) -> (r: i128)
    requires
        s@.len() <= MAX_ROWS,
        bounded(s@),
    ensures
        r == sum_spec(s@),
        0 <= r <= s@.len() * MAX_VALUE,
{
    let mut acc: i128 = 0;
    let mut i: usize = 0;
    while i < s.len()
        invariant
            i <= s@.len() <= MAX_ROWS,
            bounded(s@),
            acc == sum_spec(s@.subrange(0, i as int)),
            0 <= acc <= i * MAX_VALUE,
        decreases s@.len() - i,
    {
        assert(s@.subrange(0, i + 1).drop_last() == s@.subrange(0, i as int));
        assert(s@[i as int] <= MAX_VALUE);
        acc = acc + s[i] as i128;
        i = i + 1;
    }
    assert(s@.subrange(0, i as int) == s@);
    acc
}

/// The sum of the products of matching entries of `a` and `b`.
fn dot(a: &Vec<usize>, b: &Vec<usize>) -> (r: i128)
    requires
        a@.len() == b@.len() <= MAX_ROWS,
        bounded(a@),
        bounded(b@),
    ensures
        r == dot_spec(a@, b@),
        0 <= r <= a@.len() * MAX_PRODUCT,
{
    let mut acc: i128 = 0;
    let mut i: usize = 0;
    while i < a.len()
        invariant
            i <= a@.len() == b@.len() <= MAX_ROWS,
            bounded(a@),
            bounded(b@),
            acc == dot_spec(a@.subrange(0, i as int), b@.subrange(0, i as int)),
            0 <= acc <= i * MAX_PRODUCT,
        decreases a@.len() - i,
    {
        assert(a@.subrange(0, i + 1).drop_last() == a@.subrange(0, i as int));
        assert(b@.subrange(0, i + 1).drop_last() == b@.subrange(0, i as int));
        assert(a@[i as int] <= MAX_VALUE && b@[i as int] <= MAX_VALUE);
        proof {
            lemma_product_bound(a@[i as int] as int, b@[i as int] as int);
        }
        acc = acc + (a[i] as i128) * (b[i] as i128);
        i = i + 1;
    }
    assert(a@.subrange(0, i as int) == a@);
    assert(b@.subrange(0, i as int) == b@);
    acc
}

/// `n * p - s * t`, where `p` is a sum of `n` products and `s`, `t` sums of
/// `n` entries, all of them at most `MAX_VALUE`.
fn scaled_term(n: usize, p: i128, s: i128, t: i128) -> (r: i128)
    requires
        n <= MAX_ROWS,
        0 <= p <= n * MAX_PRODUCT,
        0 <= s <= n * MAX_VALUE,
        0 <= t <= n * MAX_VALUE,
    ensures
        r == n * p - s * t,
{
    assert(0 <= n * p <= MAX_ROWS * MAX_ROWS * MAX_PRODUCT) by (nonlinear_arith)
        requires
            0 <= n <= MAX_ROWS,
            0 <= p <= n * MAX_PRODUCT,
    ;
    assert(0 <= s * t <= 9223372030412324865 * 9223372030412324865) by (nonlinear_arith)
        requires
            0 <= s <= n * MAX_VALUE,
            0 <= t <= n * MAX_VALUE,
            0 <= n <= MAX_ROWS,
    ;
    (n as i128) * p - s * t
}

/// Column `j` of the matrix.
fn column_of(m: &Vec<Vec<usize>>, j: usize) -> (c: Vec<usize>)
    requires
        forall|i: int| 0 <= i < m@.len() ==> j < #[trigger] m@[i]@.len(),
    ensures
        c@ == column(m@, j as int),
{
    let mut c: Vec<usize> = Vec::new();
    let mut i: usize = 0;
    while i < m.len()
        invariant
            i <= m@.len(),
            forall|k: int| 0 <= k < m@.len() ==> j < #[trigger] m@[k]@.len(),
            c@ == column(m@, j as int).subrange(0, i as int),
        decreases m@.len() - i,
    {
        assert(j < m@[i as int]@.len());
        c.push(m[i][j]);
        assert(c@ =~= column(m@, j as int).subrange(0, i + 1));
        i = i + 1;
    }
    assert(column(m@, j as int).subrange(0, i as int) =~= column(m@, j as int));
    c
}

/// The correlation of each feature column with the target, in column order.
pub fn calculate_correlations(features: &Vec<Vec<usize>>, target: &Vec<usize>) -> (r: Vec<Correlation>)
    requires
        well_formed_matrix(features@),
        target@.len() == features@.len(),
        bounded(target@),
    ensures
        r@.len() == column_count(features@),
        forall|j: int|
            0 <= j < r@.len() ==> #[trigger] r@[j] == correlation_spec(column(features@, j), target@),
{
    let n: usize = target.len();
    let sy = total(target);
    let syy = dot(target, target);
    let vy = scaled_term(n, syy, sy, sy);
    let cols: usize = if features.len() == 0 { 0 } else { features[0].len() };
    let mut r: Vec<Correlation> = Vec::new();
    let mut j: usize = 0;
    while j < cols
        invariant
            well_formed_matrix(features@),
            target@.len() == features@.len() == n,
            bounded(target@),
            cols == column_count(features@),
            vy == scaled_variance(target@),
            sy == sum_spec(target@),
            0 <= sy <= n * MAX_VALUE,
            j <= cols,
            r@.len() == j,
            forall|k: int|
                0 <= k < j ==> #[trigger] r@[k] == correlation_spec(column(features@, k), target@),
        decreases cols - j,
    {
        assert(forall|i: int| 0 <= i < features@.len() ==> j < #[trigger] features@[i]@.len());
        let c = column_of(features, j);
        assert(bounded(c@)) by {
            assert forall|i: int| 0 <= i < c@.len() implies #[trigger] c@[i] <= MAX_VALUE by {
                assert(bounded(features@[i]@));
            }
        }
        let sx = total(&c);
        let sxx = dot(&c, &c);
        let sxy = dot(&c, target);
        let vx = scaled_term(n, sxx, sx, sx);
        let cov = scaled_term(n, sxy, sx, sy);
        let entry = if vx > 0 && vy > 0 {
            Correlation::Ratio { covariance: cov, feature_variance: vx, target_variance: vy }
        } else {
            Correlation::Zero
        };
        r.push(entry);
        j = j + 1;
    }
    r
}

/// The sum and the sum of squares of a series whose entries are all `c`.
proof fn lemma_constant_sums(x: Seq<usize>, c: usize)
    requires
        forall|i: int| 0 <= i < x.len() ==> #[trigger] x[i] == c,
    ensures
        sum_spec(x) == x.len() * c,
        dot_spec(x, x) == x.len() * (c * c),
    decreases x.len(),
{
    if x.len() > 0 {
        lemma_constant_sums(x.drop_last(), c);
        assert(x.last() == c);
        assert(sum_spec(x) == (x.len() - 1) * c + c);
        assert((x.len() - 1) * c + c == x.len() * c) by (nonlinear_arith);
        assert((x.len() - 1) * (c * c) + c * c == x.len() * (c * c)) by (nonlinear_arith);
    }
}

/// `sum((x_i - a) ^ 2)`, written out over the sums of `x`, is never negative.
proof fn lemma_squared_deviations_nonneg(x: Seq<usize>, a: int)
    ensures
        dot_spec(x, x) - 2 * a * sum_spec(x) + x.len() * (a * a) >= 0,
    decreases x.len(),
{
    if x.len() > 0 {
        let p = x.drop_last();
        let v = x.last() as int;
        lemma_squared_deviations_nonneg(p, a);
        assert(dot_spec(x, x) == dot_spec(p, p) + v * v);
        assert(sum_spec(x) == sum_spec(p) + v);
        assert((v - a) * (v - a) >= 0) by (nonlinear_arith);
        assert(dot_spec(x, x) - 2 * a * sum_spec(x) + x.len() * (a * a) == (dot_spec(p, p) - 2 * a
            * sum_spec(p) + p.len() * (a * a)) + (v - a) * (v - a)) by (nonlinear_arith)
            requires
                dot_spec(x, x) == dot_spec(p, p) + v * v,
                sum_spec(x) == sum_spec(p) + v,
                x.len() == p.len() + 1,
        ;
    }
}

/// The scaled variance of any series is never negative: it is the sum of the
/// squared differences of all pairs of entries.
pub proof fn lemma_scaled_variance_nonneg(x: Seq<usize>)
    ensures
        scaled_variance(x) >= 0,
    decreases x.len(),
{
    if x.len() > 0 {
        let p = x.drop_last();
        let v = x.last() as int;
        let n = p.len() as int;
        let s = sum_spec(p);
        let q = dot_spec(p, p);
        lemma_scaled_variance_nonneg(p);
        lemma_squared_deviations_nonneg(p, v);
        assert(dot_spec(x, x) == q + v * v);
        assert(sum_spec(x) == s + v);
        assert((n + 1) * (q + v * v) - (s + v) * (s + v) == (n * q - s * s) + (q - 2 * v * s + n * (
        v * v))) by (nonlinear_arith);
    }
}

/// A feature column whose entries are all equal has correlation zero with
/// any target.
pub proof fn lemma_constant_feature_zero_correlation(m: Seq<Vec<usize>>, target: Seq<usize>, j: int)
    requires
        well_formed_matrix(m),
        0 <= j < column_count(m),
        forall|i: int| 0 <= i < m.len() ==> #[trigger] m[i]@[j] == m[0]@[j],
    ensures
        correlation_spec(column(m, j), target) == Correlation::Zero,
{
    let x = column(m, j);
    let c = m[0]@[j];
    lemma_constant_sums(x, c);
    let n = x.len() as int;
    assert(n * (n * (c * c)) - (n * c) * (n * c) == 0) by (nonlinear_arith);
    assert(scaled_variance(x) == 0);
}

} // verus!
