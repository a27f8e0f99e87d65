//! Curves of straight pieces.
use crate::bounds::{lemma_minus, lemma_plus, lemma_times, slack, within};
use crate::reals::{lemma_bounded, lemma_over, lemma_spread, lemma_swap};
use crate::single::Single;
use crate::single_errors::{lemma_order, lemma_quotient_close, lemma_speck, real_value};
use vstd::prelude::*;

verus! {

/// A curve through points with growing inputs; it is flat before the first and after the last
/// one.
#[derive(Clone, Copy, Debug)]
pub struct LinearPieceCurve<const N: usize> {
    pub value_mappings: [(Single, Single); N],
}

/// The point at `input` on the line through two points.
pub open spec fn on_line(before: (Single, Single), after: (Single, Single), input: Single) -> Single {
    let fraction = input.minus(before.0).over(after.0.minus(before.0));
    before.1.plus(after.1.minus(before.1).times(fraction))
}

/// The output at `input`, which does not lie before the point `i - 1`.
pub open spec fn output_from(points: Seq<(Single, Single)>, input: Single, i: int) -> Single
    decreases points.len() - i,
{
    if i >= points.len() {
        points[points.len() - 1].1
    } else if input.less(points[i].0) {
        on_line(points[i - 1], points[i], input)
    } else {
        output_from(points, input, i + 1)
    }
}

impl<const N: usize> LinearPieceCurve<N> {
    pub open spec fn output(&self, input: Single) -> Single {
        let points = self.value_mappings@;
        if input.at_most(points[0].0) {
            points[0].1
        } else {
            output_from(points, input, 1)
        }
    }

    pub fn get_output(&self, input: Single) -> (r: Single)
        requires
            N > 0,
        ensures
            r == self.output(input),
    {
        let mut before: (Single, Single) = self.value_mappings[0];
        if input.le(before.0) {
            return before.1;
        }
        let mut i: usize = 1;
        while i < N
            invariant
                1 <= i <= N,
                before == self.value_mappings@[i - 1],
                self.output(input) == output_from(self.value_mappings@, input, i as int),
            decreases N - i,
        {
            let after: (Single, Single) = self.value_mappings[i];
            if input.lt(after.0) {
                let range = after.0.minus(before.0);
                let rise = after.1.minus(before.1);
                let fraction = input.minus(before.0).over(range);
                return before.1.plus(rise.times(fraction));
            }
            before = after;
            i = i + 1;
        }
        before.1
    }
}

/// Which piece of a curve an input lies on.
proof fn lemma_piece(points: Seq<(Single, Single)>, input: Single, i: int, k: int)
    requires
        1 <= k <= i <= points.len(),
        forall|j: int| k <= j < i ==> !input.less(#[trigger] points[j].0),
        i < points.len() ==> input.less(points[i].0),
    ensures
        output_from(points, input, k) == if i < points.len() {
            on_line(points[i - 1], points[i], input)
        } else {
            points[points.len() - 1].1
        },
    decreases i - k,
{
    if k < i {
        lemma_piece(points, input, i, k + 1);
    }
}

/// A curve is flat before its first point and after its last one.
pub proof fn law_curves_are_flat_outside<const N: usize>(curve: LinearPieceCurve<N>, input: Single)
    requires
        N > 0,
    ensures
        input.at_most(curve.value_mappings@[0].0) ==> curve.output(input) == curve.value_mappings@[0].1,
        !input.at_most(curve.value_mappings@[0].0) && (forall|j: int|
            1 <= j < N ==> !input.less(#[trigger] curve.value_mappings@[j].0)) ==> curve.output(input)
            == curve.value_mappings@[N - 1].1,
{
    let points = curve.value_mappings@;
    if !input.at_most(points[0].0) && (forall|j: int| 1 <= j < N ==> !input.less(#[trigger] points[j].0)) {
        lemma_piece(points, input, N as int, 1);
    }
}

/// Between two points a curve is the straight line through them: as far as the input has come on the way from the
/// one to the other, the output has come too. The result is how far that is, from 0 to 1.
pub proof fn law_curves_are_straight_between<const N: usize>(curve: LinearPieceCurve<N>, input: Single, i: int) -> (q: real)
    requires
        1 <= i < N,
        !input.at_most(curve.value_mappings@[0].0),
        forall|j: int| 1 <= j < i ==> !input.less(#[trigger] curve.value_mappings@[j].0),
        input.less(curve.value_mappings@[i].0),
        input.finite(),
        ({
            let (from, to) = (curve.value_mappings@[i - 1], curve.value_mappings@[i]);
            &&& from.0.finite() && from.1.finite() && to.0.finite() && to.1.finite()
            &&& -1000000real <= real_value(from.0) && real_value(to.0) <= 1000000real
            &&& real_value(from.0) + 1real <= real_value(to.0)
            &&& -10real <= real_value(from.1) <= 10real
            &&& -10real <= real_value(to.1) <= 10real
        }),
    ensures
        0real <= q <= 1real,
        ({
            let (from, to) = (curve.value_mappings@[i - 1], curve.value_mappings@[i]);
            &&& q * (real_value(to.0) - real_value(from.0)) == real_value(input) - real_value(from.0)
            &&& within(
                curve.output(input),
                real_value(from.1) + (real_value(to.1) - real_value(from.1)) * q,
                1real / 50000real,
            )
        }),
{
    let points = curve.value_mappings@;
    lemma_piece(points, input, i, 1);
    let (from, to) = (points[i - 1], points[i]);
    lemma_order(input, from.0);
    lemma_order(from.0, input);
    lemma_order(input, to.0);
    let (x, x0, x1) = (real_value(input), real_value(from.0), real_value(to.0));
    let (y0, y1) = (real_value(from.1), real_value(to.1));
    let (a, b) = (x - x0, x1 - x0);
    let q = a / b;
    assert(q * b == a) by (nonlinear_arith)
        requires
            q == a / b,
            b > 0real,
    ;
    assert(0real <= q <= 1real) by (nonlinear_arith)
        requires
            q == a / b,
            b > 0real,
            0real <= a <= b,
    ;
    let (num, den) = (input.minus(from.0), to.0.minus(from.0));
    lemma_minus(to.0, x1, 0real, from.0, x0, 0real, b);
    lemma_difference(input, from.0, b);
    let (n, d) = (real_value(num), real_value(den));
    let fraction = num.over(den);
    assert(d >= 1real / 2real);
    lemma_quotient_close(num, den);
    let f = n / d;
    assert(f * d == n) by (nonlinear_arith)
        requires
            f == n / d,
            d > 0real,
    ;
    // What is left of the fraction when the errors of both differences are taken out.
    assert(-(1real / 5000000real) <= f - q <= 1real / 5000000real) by {
        lemma_bounded(q, d - b, 1real, b / 16000000real);
        lemma_spread(q, d, b);
        let g = f - q;
        lemma_swap(d, f);
        lemma_swap(d, q);
        lemma_spread(d, f, q);
        assert(d * g == n - q * d);
        assert(-(2real * b / 16000000real) <= d * g <= 2real * b / 16000000real);
        assert(b <= 101real * d / 100real);
        let h = 1real / 5000000real;
        assert(d * h == d / 5000000real) by (nonlinear_arith)
            requires
                h == 1real / 5000000real,
        ;
        lemma_spread(d, h, h);
        lemma_over(d, g, h);
        lemma_over(d, -h, g);
    }
    lemma_speck();
    assert(within(fraction, q, 1real / 3000000real));
    lemma_minus(to.1, y1, 0real, from.1, y0, 0real, 20real);
    let rise = to.1.minus(from.1);
    let (er, ef) = (20real / 16000000real, 1real / 3000000real);
    assert(slack(20real, er, 1real, ef) <= 1real / 100000real && (20real + er) * (1real + ef) <= 21real && (20real + er) * (1real
        + ef) >= 20real) by (nonlinear_arith)
        requires
            er == 20real / 16000000real,
            ef == 1real / 3000000real,
    ;
    lemma_times(rise, y1 - y0, er, fraction, q, ef, 20real, 1real, 1real / 100000real);
    lemma_bounded(y1 - y0, q, 20real, 1real);
    lemma_plus(from.1, y0, 0real, rise.times(fraction), (y1 - y0) * q, 1real / 100000real, 30real);
    q
}

/// The difference of two numbers that lie less than `b` apart.
proof fn lemma_difference(a: Single, c: Single, b: real)
    requires
        a.finite(),
        c.finite(),
        0real <= real_value(a) - real_value(c) <= b,
        1real <= b <= 2000000real,
    ensures
        within(a.minus(c), real_value(a) - real_value(c), b / 16000000real),
{
    lemma_minus(a, real_value(a), 0real, c, real_value(c), 0real, b);
}

} // verus!
