//! One dense layer: an affine transform followed by the logistic sigmoid.
use vstd::prelude::*;
use rand::rngs::StdRng;
use crate::error::ShapeError;
use crate::init::{draw, is_drawn};
use crate::scalar::{
    functional, is_difference, is_product, is_sigmoid, is_sum, lemma_sigmoid_functional, sigmoid, Scalar,
};
use crate::vector::{dot, dot_via, is_dot, lemma_dot_extend, lemma_dot_functional};

verus! {

/// The vector that is fed into a layer.
pub struct InputLayer<T> {
    pub inputs: Vec<T>,
}

impl<T> InputLayer<T> {
    /// The input that holds the given values.
    pub fn new(inputs: Vec<T>) -> (r: Self)
        ensures
            r.inputs == inputs,
    {
        InputLayer { inputs }
    }
}

/// The two ways to hand weights to a layer.
pub enum WeightsType<T> {
    /// The incoming weights of a single output unit.
    Single(Vec<T>),
    /// One row of incoming weights for each output unit.
    Multiple(Vec<Vec<T>>),
}

impl<T> WeightsType<T> {
    /// The weight matrix that is meant, row by row.
    pub open spec fn rows(self) -> Seq<Seq<T>> {
        match self {
            WeightsType::Single(row) => seq![row@],
            WeightsType::Multiple(rows) => Seq::new(rows@.len(), |i: int| rows@[i]@),
        }
    }

    /// The weight matrix that is meant.
    pub fn into_rows(self) -> (r: Vec<Vec<T>>)
        ensures
            Seq::new(r@.len(), |i: int| r@[i]@) == self.rows(),
    {
        match self {
            WeightsType::Single(row) => {
                let mut rows: Vec<Vec<T>> = Vec::new();
                rows.push(row);
                assert(Seq::new(rows@.len(), |i: int| rows@[i]@) =~= seq![row@]);
                rows
            },
            WeightsType::Multiple(rows) => rows,
        }
    }
}

/// Column `j` of a matrix: entry `j` of every row, from the first row down.
pub open spec fn column<T>(rows: Seq<Seq<T>>, j: int) -> Seq<T> {
    Seq::new(rows.len(), |i: int| rows[i][j])
}

/// `r` is the weight `p` after one step of gradient descent, for the error
/// `e` of its unit and the input `x` on its line: `p - (rate * e) * x`,
/// through the products `s = rate * e` and `g = s * x`.
pub open spec fn weight_step_via<T: Scalar>(p: T, rate: T, e: T, x: T, s: T, g: T, r: T) -> bool {
    &&& is_product(rate, e, s)
    &&& is_product(s, x, g)
    &&& is_difference(p, g, r)
}

/// `r` is the weight `p` after one step of gradient descent.
pub open spec fn is_weight_step<T: Scalar>(p: T, rate: T, e: T, x: T, r: T) -> bool {
    exists|s: T, g: T| weight_step_via(p, rate, e, x, s, g, r)
}

/// `r` is the bias `b` after one step of gradient descent, for the error `e`
/// of its unit: `b - rate * e`, through the product `s`.
pub open spec fn bias_step_via<T: Scalar>(b: T, rate: T, e: T, s: T, r: T) -> bool {
    &&& is_product(rate, e, s)
    &&& is_difference(b, s, r)
}

/// `r` is the bias `b` after one step of gradient descent.
pub open spec fn is_bias_step<T: Scalar>(b: T, rate: T, e: T, r: T) -> bool {
    exists|s: T| bias_step_via(b, rate, e, s, r)
}

/// `r` is an output of the unit with incoming weights `row` and bias `bias`
/// on the input `x`: `sigmoid(dot(row, x) + bias)`.
pub open spec fn is_unit_output<T: Scalar>(row: Seq<T>, bias: T, x: Seq<T>, r: T) -> bool {
    exists|d: T, h: T| unit_output_via(row, bias, x, d, h, r)
}

/// `r` is an output of a unit, through the dot product `d` and the sum `h`.
pub open spec fn unit_output_via<T: Scalar>(row: Seq<T>, bias: T, x: Seq<T>, d: T, h: T, r: T) -> bool {
    &&& is_dot(row, x, d)
    &&& is_sum(d, bias, h)
    &&& is_sigmoid(h, r)
}

/// The rows of a weight matrix are all as long as the first, and there is one
/// bias for each.
pub open spec fn fits<T>(rows: Seq<Seq<T>>, biases: Seq<T>) -> bool {
    &&& rows.len() == biases.len()
    &&& forall|i: int| 0 <= i < rows.len() ==> (#[trigger] rows[i]).len() == rows[0].len()
}

/// The number of inputs that a weight matrix takes: the length of its first
/// row, and none where it has no row.
pub open spec fn width<T>(rows: Seq<Seq<T>>) -> nat {
    if rows.len() == 0 {
        0
    } else {
        rows[0].len()
    }
}

/// What a layer is: the number of inputs it takes, a weight matrix with one
/// row for each output unit, and one bias for each output unit.
pub struct LayerModel<T> {
    pub input_size: nat,
    pub rows: Seq<Seq<T>>,
    pub biases: Seq<T>,
}

impl<T: Scalar> LayerModel<T> {
    /// There is one bias for each row, and every row is `input_size` long.
    pub open spec fn wf(self) -> bool {
        &&& self.rows.len() == self.biases.len()
        &&& forall|i: int| 0 <= i < self.rows.len() ==> (#[trigger] self.rows[i]).len() == self.input_size
    }

    /// The number of output units.
    pub open spec fn output_size(self) -> nat {
        self.biases.len()
    }

    /// `out` is an output of this layer on the input `x`: one unit for each
    /// row, each the sigmoid of the row's dot product with `x` plus the bias.
    pub open spec fn maps(self, x: Seq<T>, out: Seq<T>) -> bool {
        &&& out.len() == self.rows.len()
        &&& forall|i: int| 0 <= i < out.len() ==> is_unit_output(self.rows[i], self.biases[i], x, #[trigger] out[i])
    }

    /// Every weight and every bias is an initial value for some random word.
    pub open spec fn drawn(self) -> bool {
        &&& forall|i: int, j: int|
            0 <= i < self.rows.len() && 0 <= j < self.rows[i].len() ==> is_drawn(#[trigger] self.rows[i][j])
        &&& forall|i: int| 0 <= i < self.biases.len() ==> is_drawn(#[trigger] self.biases[i])
    }

    /// One training step takes this layer to `after` and hands `back` to the
    /// layer before it, given the input `x` that the layer was fed, the error
    /// `err` of its units and the learning rate.
    ///
    /// Every weight and every bias has made its step of gradient descent, and
    /// `back[j]` is the dot product of column `j` of the weights, as they
    /// were before the step, with `err`. The shape is as it was.
    pub open spec fn steps(self, x: Seq<T>, err: Seq<T>, rate: T, after: LayerModel<T>, back: Seq<T>) -> bool {
        &&& after.wf()
        &&& after.input_size == self.input_size
        &&& after.rows.len() == self.rows.len()
        &&& forall|i: int, j: int|
            0 <= i < self.rows.len() && 0 <= j < self.input_size ==> is_weight_step(
                self.rows[i][j],
                rate,
                err[i],
                x[j],
                #[trigger] after.rows[i][j],
            )
        &&& forall|i: int|
            0 <= i < self.rows.len() ==> is_bias_step(self.biases[i], rate, err[i], #[trigger] after.biases[i])
        &&& back.len() == self.input_size
        &&& forall|j: int| 0 <= j < self.input_size ==> is_dot(column(self.rows, j), err, #[trigger] back[j])
    }
}

/// A dense layer. Its shape is fixed when it is made: a training step changes
/// the values it holds, never how many there are.
///
/// The fields are private, every constructor gives a well-formed layer and
/// every method keeps it so: the `requires` of the methods below holds of
/// every layer there is.
pub struct Layer<T> {
    input_size: usize,
    weights: Vec<Vec<T>>,
    biases: Vec<T>,
}

impl<T: Scalar> View for Layer<T> {
    type V = LayerModel<T>;

    closed spec fn view(&self) -> LayerModel<T> {
        LayerModel {
            input_size: self.input_size as nat,
            rows: Seq::new(self.weights@.len(), |i: int| self.weights@[i]@),
            biases: self.biases@,
        }
    }
}

impl<T: Scalar> Layer<T> {
    /// A layer of the given weights and biases. The weights must form a
    /// matrix, with one bias for each row.
    pub fn new(weights: WeightsType<T>, biases: Vec<T>) -> (r: Result<Self, ShapeError>)
        ensures
            match r {
                Ok(layer) => {
                    &&& fits(weights.rows(), biases@)
                    &&& layer@.wf()
                    &&& layer@.input_size == width(weights.rows())
                    &&& layer@.rows == weights.rows()
                    &&& layer@.biases == biases@
                },
                Err(ShapeError::Biases { expected, actual }) => {
                    &&& weights.rows().len() != biases@.len()
                    &&& expected == weights.rows().len()
                    &&& actual == biases@.len()
                },
                Err(ShapeError::Row { row, expected, actual }) => {
                    &&& weights.rows().len() == biases@.len()
                    &&& row < weights.rows().len()
                    &&& expected == weights.rows()[0].len()
                    &&& actual == weights.rows()[row as int].len()
                    &&& actual != expected
                    &&& forall|k: int| 0 <= k < row ==> (#[trigger] weights.rows()[k]).len() == expected
                },
                Err(_) => false,
            },
    {
        let ghost given = weights.rows();
        let rows = weights.into_rows();
        if rows.len() != biases.len() {
            return Err(ShapeError::Biases { expected: rows.len(), actual: biases.len() });
        }
        let input_size: usize = if rows.len() == 0 {
            0
        } else {
            rows[0].len()
        };
        let mut i: usize = 0;
        while i < rows.len()
            invariant
                i <= rows.len(),
                rows.len() == biases.len(),
                given == weights.rows(),
                given == Seq::new(rows@.len(), |k: int| rows@[k]@),
                input_size == width(given),
                forall|k: int| 0 <= k < i ==> (#[trigger] given[k]).len() == input_size,
            decreases rows.len() - i,
        {
            assert(given[i as int] == rows@[i as int]@);
            if rows[i].len() != input_size {
                assert(given[0] == rows@[0]@);
                return Err(ShapeError::Row { row: i, expected: input_size, actual: rows[i].len() });
            }
            i += 1;
        }
        let layer = Layer { input_size, weights: rows, biases };
        assert(layer@.rows == given);
        Ok(layer)
    }

    /// A layer of the given sizes whose weights and biases are drawn from
    /// `rng`, one word each: unit by unit the weights of its row and then its
    /// bias.
    pub fn random(input_size: usize, output_size: usize, rng: &mut StdRng) -> (r: Self)
        ensures
            r@.wf(),
            r@.input_size == input_size,
            r@.output_size() == output_size,
            r@.drawn(),
    {
        let mut weights: Vec<Vec<T>> = Vec::new();
        let mut biases: Vec<T> = Vec::new();
        let mut i: usize = 0;
        while i < output_size
            invariant
                i <= output_size,
                weights@.len() == i,
                biases@.len() == i,
                forall|k: int| 0 <= k < i ==> (#[trigger] weights@[k])@.len() == input_size,
                forall|k: int, c: int| 0 <= k < i && 0 <= c < input_size ==> is_drawn(#[trigger] weights@[k]@[c]),
                forall|k: int| 0 <= k < i ==> is_drawn(#[trigger] biases@[k]),
            decreases output_size - i,
        {
            let mut row: Vec<T> = Vec::new();
            let mut j: usize = 0;
            while j < input_size
                invariant
                    j <= input_size,
                    row@.len() == j,
                    forall|c: int| 0 <= c < j ==> is_drawn(#[trigger] row@[c]),
                decreases input_size - j,
            {
                let w: T = draw(rng);
                row.push(w);
                j += 1;
            }
            let b: T = draw(rng);
            weights.push(row);
            biases.push(b);
            i += 1;
        }
        let layer = Layer { input_size, weights, biases };
        proof {
            assert forall|k: int, c: int| 0 <= k < layer@.rows.len() && 0 <= c < layer@.rows[k].len() implies is_drawn(
                #[trigger] layer@.rows[k][c],
            ) by {
                assert(layer@.rows[k][c] == weights@[k]@[c]);
            }
        }
        layer
    }

    /// The number of inputs the layer takes.
    pub fn input_size(&self) -> (r: usize)
        ensures
            r == self@.input_size,
    {
        self.input_size
    }

    /// The number of output units.
    pub fn output_size(&self) -> (r: usize)
        ensures
            r == self@.output_size(),
    {
        self.biases.len()
    }

    /// The weight matrix, one row for each output unit.
    pub fn weights(&self) -> (r: &Vec<Vec<T>>)
        ensures
            Seq::new(r@.len(), |i: int| r@[i]@) == self@.rows,
    {
        &self.weights
    }

    /// The biases, one for each output unit.
    pub fn biases(&self) -> (r: &Vec<T>)
        ensures
            r@ == self@.biases,
    {
        &self.biases
    }

    /// The layer's output on an input: for each unit the sigmoid of the dot
    /// product of its weights with the input, plus its bias. The layer is not
    /// changed. An input of another length than `input_size` is refused.
    pub fn forward_prop(&self, neuron_inputs: &InputLayer<T>) -> (r: Result<Vec<T>, ShapeError>)
        requires
            self@.wf(),
        ensures
            match r {
                Ok(out) => {
                    &&& neuron_inputs.inputs@.len() == self@.input_size
                    &&& self@.maps(neuron_inputs.inputs@, out@)
                },
                Err(e) => {
                    &&& neuron_inputs.inputs@.len() != self@.input_size
                    &&& e == (ShapeError::Input {
                        layer: 0,
                        expected: self@.input_size as usize,
                        actual: neuron_inputs.inputs@.len() as usize,
                    })
                },
            },
    {
        if neuron_inputs.inputs.len() != self.input_size {
            return Err(
                ShapeError::Input {
                    layer: 0,
                    expected: self.input_size,
                    actual: neuron_inputs.inputs.len(),
                },
            );
        }
        let mut outputs: Vec<T> = Vec::new();
        let mut i: usize = 0;
        while i < self.weights.len()
            invariant
                i <= self.weights.len(),
                self@.wf(),
                neuron_inputs.inputs@.len() == self@.input_size,
                outputs@.len() == i,
                forall|k: int| 0 <= k < i ==> is_unit_output(self@.rows[k], self@.biases[k], neuron_inputs.inputs@, #[trigger] outputs@[k]),
            decreases self.weights.len() - i,
        {
            assert(self@.rows[i as int].len() == self@.input_size);
            let d = dot(&self.weights[i], &neuron_inputs.inputs);
            let h = d.plus(self.biases[i]);
            let y = sigmoid(h);
            assert(unit_output_via(self@.rows[i as int], self@.biases[i as int], neuron_inputs.inputs@, d, h, y));
            outputs.push(y);
            i += 1;
        }
        Ok(outputs)
    }

    /// One step of gradient descent on this layer, in place. `inputs` is what
    /// the layer was fed in this training step and `output_error` the error
    /// of its units. Returns the error to hand to the layer before this one.
    ///
    /// For each unit `i` and each input `j`, weight `[i][j]` goes into entry
    /// `j` of the returned error, times `output_error[i]`, before it is
    /// lowered by `learning_rate * output_error[i] * inputs[j]`; then bias `i`
    /// is lowered by `learning_rate * output_error[i]`. No derivative of the
    /// sigmoid is applied here: the caller scales the error where it wants
    /// that. On a length that does not fit nothing is changed.
    pub fn backward_prop(
        &mut self,
        inputs: &InputLayer<T>,
        output_error: &Vec<T>,
        learning_rate: T,
    ) -> (r: Result<Vec<T>, ShapeError>)
        requires
            old(self)@.wf(),
        ensures
            match r {
                Ok(back) => {
                    &&& inputs.inputs@.len() == old(self)@.input_size
                    &&& output_error@.len() == old(self)@.output_size()
                    &&& old(self)@.steps(inputs.inputs@, output_error@, learning_rate, final(self)@, back@)
                },
                Err(e) => {
                    &&& final(self)@ == old(self)@
                    &&& if inputs.inputs@.len() != old(self)@.input_size {
                        e == (ShapeError::Input {
                            layer: 0,
                            expected: old(self)@.input_size as usize,
                            actual: inputs.inputs@.len() as usize,
                        })
                    } else {
                        &&& output_error@.len() != old(self)@.output_size()
                        &&& e == (ShapeError::Signal {
                            layer: 0,
                            expected: old(self)@.output_size() as usize,
                            actual: output_error@.len() as usize,
                        })
                    }
                },
            },
    {
        let n = self.input_size;
        let m = self.biases.len();
        if inputs.inputs.len() != n {
            return Err(ShapeError::Input { layer: 0, expected: n, actual: inputs.inputs.len() });
        }
        if output_error.len() != m {
            return Err(ShapeError::Signal { layer: 0, expected: m, actual: output_error.len() });
        }
        let ghost before = self@;
        let ghost x = inputs.inputs@;
        let ghost err = output_error@;
        let mut back: Vec<T> = Vec::new();
        let ghost mut prods: Seq<Seq<T>> = Seq::empty();
        let ghost mut accs: Seq<Seq<T>> = Seq::empty();
        let mut j: usize = 0;
        while j < n
            invariant
                j <= n,
                back@.len() == j,
                prods.len() == j,
                accs.len() == j,
                forall|c: int| 0 <= c < j ==> column_sum(before.rows, err, c, 0, #[trigger] prods[c], accs[c], back@[c]),
            decreases n - j,
        {
            let z = T::zero();
            back.push(z);
            proof {
                prods = prods.push(Seq::empty());
                accs = accs.push(seq![z]);
                assert(column(before.rows, j as int).take(0) =~= Seq::<T>::empty());
                assert(err.take(0) =~= Seq::<T>::empty());
            }
            j += 1;
        }
        assert forall|k: int| 0 <= k < m implies (#[trigger] self.weights@[k])@.len() == n by {
            assert(before.rows[k].len() == n);
        }
        let mut i: usize = 0;
        while i < m
            invariant
                i <= m,
                before.wf(),
                before.input_size == n,
                before.rows.len() == m,
                x.len() == n,
                err.len() == m,
                x == inputs.inputs@,
                err == output_error@,
                self.input_size == n,
                self.weights@.len() == m,
                self.biases@.len() == m,
                forall|k: int| 0 <= k < m ==> (#[trigger] self.weights@[k])@.len() == n,
                forall|k: int, c: int|
                    0 <= k < i && 0 <= c < n ==> is_weight_step(
                        before.rows[k][c],
                        learning_rate,
                        err[k],
                        x[c],
                        #[trigger] self.weights@[k]@[c],
                    ),
                forall|k: int| i <= k < m ==> (#[trigger] self.weights@[k])@ == before.rows[k],
                forall|k: int|
                    0 <= k < i ==> is_bias_step(before.biases[k], learning_rate, err[k], #[trigger] self.biases@[k]),
                forall|k: int| i <= k < m ==> #[trigger] self.biases@[k] == before.biases[k],
                back@.len() == n,
                prods.len() == n,
                accs.len() == n,
                forall|c: int|
                    0 <= c < n ==> column_sum(before.rows, err, c, i as int, #[trigger] prods[c], accs[c], back@[c]),
            decreases m - i,
        {
            let e = output_error[i];
            let s = learning_rate.times(e);
            let mut row: Vec<T> = Vec::new();
            let mut j: usize = 0;
            assert(self.weights@[i as int]@ == before.rows[i as int]);
            while j < n
                invariant
                    j <= n,
                    i < m,
                    before.wf(),
                    before.input_size == n,
                    before.rows.len() == m,
                    x.len() == n,
                    err.len() == m,
                    x == inputs.inputs@,
                    err == output_error@,
                    e == err[i as int],
                    is_product(learning_rate, e, s),
                    self.weights@.len() == m,
                    self.weights@[i as int]@ == before.rows[i as int],
                    row@.len() == j,
                    forall|c: int|
                        0 <= c < j ==> is_weight_step(
                            before.rows[i as int][c],
                            learning_rate,
                            e,
                            x[c],
                            #[trigger] row@[c],
                        ),
                    back@.len() == n,
                    prods.len() == n,
                    accs.len() == n,
                    forall|c: int|
                        0 <= c < j ==> column_sum(before.rows, err, c, i + 1, #[trigger] prods[c], accs[c], back@[c]),
                    forall|c: int|
                        j <= c < n ==> column_sum(before.rows, err, c, i as int, #[trigger] prods[c], accs[c], back@[c]),
                decreases n - j,
            {
                assert(before.rows[i as int].len() == n);
                let w = self.weights[i][j];
                let p = w.times(e);
                let a = back[j].plus(p);
                let g = s.times(inputs.inputs[j]);
                let stepped = w.minus(g);
                proof {
                    assert(column_sum(before.rows, err, j as int, i as int, prods[j as int], accs[j as int], back@[j as int]));
                    lemma_column_sum_extend(
                        before.rows,
                        err,
                        j as int,
                        i as int,
                        prods[j as int],
                        accs[j as int],
                        back@[j as int],
                        p,
                        a,
                    );
                    assert(weight_step_via(w, learning_rate, e, x[j as int], s, g, stepped));
                    prods = prods.update(j as int, prods[j as int].push(p));
                    accs = accs.update(j as int, accs[j as int].push(a));
                }
                back.set(j, a);
                row.push(stepped);
                j += 1;
            }
            let b = self.biases[i].minus(s);
            assert(bias_step_via(before.biases[i as int], learning_rate, e, s, b));
            self.weights.set(i, row);
            self.biases.set(i, b);
            i += 1;
        }
        proof {
            let after = self@;
            assert forall|k: int| 0 <= k < after.rows.len() implies (#[trigger] after.rows[k]).len()
                == after.input_size by {
                assert(self.weights@[k]@.len() == n);
            }
            assert forall|k: int, c: int| 0 <= k < m && 0 <= c < n implies is_weight_step(
                before.rows[k][c],
                learning_rate,
                err[k],
                x[c],
                #[trigger] after.rows[k][c],
            ) by {
                assert(after.rows[k][c] == self.weights@[k]@[c]);
            }
            assert forall|c: int| 0 <= c < n implies is_dot(column(before.rows, c), err, #[trigger] back@[c]) by {
                assert(column_sum(before.rows, err, c, m as int, prods[c], accs[c], back@[c]));
                assert(column(before.rows, c).take(m as int) =~= column(before.rows, c));
                assert(err.take(m as int) =~= err);
            }
        }
        Ok(back)
    }
}

/// `prod` and `acc` record the dot product of the first `i` entries of column
/// `j` with the first `i` entries of `err`, and `r` is where it stands.
spec fn column_sum<T: Scalar>(
    rows: Seq<Seq<T>>,
    err: Seq<T>,
    j: int,
    i: int,
    prod: Seq<T>,
    acc: Seq<T>,
    r: T,
) -> bool {
    &&& dot_via(column(rows, j).take(i), err.take(i), prod, acc)
    &&& acc.last() == r
}

/// A column's dot product takes in the next row.
proof fn lemma_column_sum_extend<T: Scalar>(
    rows: Seq<Seq<T>>,
    err: Seq<T>,
    j: int,
    i: int,
    prod: Seq<T>,
    acc: Seq<T>,
    r: T,
    p: T,
    a: T,
)
    requires
        0 <= i < rows.len(),
        rows.len() == err.len(),
        column_sum(rows, err, j, i, prod, acc, r),
        is_product(rows[i][j], err[i], p),
        is_sum(r, p, a),
    ensures
        column_sum(rows, err, j, i + 1, prod.push(p), acc.push(a), a),
{
    let col = column(rows, j);
    lemma_dot_extend(col.take(i), err.take(i), prod, acc, rows[i][j], err[i], p, a);
    assert(col.take(i + 1) =~= col.take(i).push(rows[i][j]));
    assert(err.take(i + 1) =~= err.take(i).push(err[i]));
}

/// With functional operations a unit has one output on an input.
pub proof fn lemma_unit_output_functional<T: Scalar>(row: Seq<T>, bias: T, x: Seq<T>, r1: T, r2: T)
    requires
        functional::<T>(),
        is_unit_output(row, bias, x, r1),
        is_unit_output(row, bias, x, r2),
    ensures
        r1 == r2,
{
    let (d1, h1) = choose|d: T, h: T| unit_output_via(row, bias, x, d, h, r1);
    let (d2, h2) = choose|d: T, h: T| unit_output_via(row, bias, x, d, h, r2);
    lemma_dot_functional(row, x, d1, d2);
    assert(h1 == h2);
    lemma_sigmoid_functional(h1, r1, r2);
}

/// A layer's forward pass has no hidden state: with functional operations
/// the same layer gives the same output on the same input, every time.
pub proof fn lemma_layer_forward_deterministic<T: Scalar>(layer: LayerModel<T>, x: Seq<T>, out1: Seq<T>, out2: Seq<T>)
    requires
        functional::<T>(),
        layer.maps(x, out1),
        layer.maps(x, out2),
    ensures
        out1 == out2,
{
    assert forall|i: int| 0 <= i < out1.len() implies out1[i] == out2[i] by {
        lemma_unit_output_functional(layer.rows[i], layer.biases[i], x, out1[i], out2[i]);
    }
    assert(out1 =~= out2);
}

/// With functional operations a weight has one place to step to.
pub proof fn lemma_weight_step_functional<T: Scalar>(p: T, rate: T, e: T, x: T, r1: T, r2: T)
    requires
        functional::<T>(),
        is_weight_step(p, rate, e, x, r1),
        is_weight_step(p, rate, e, x, r2),
    ensures
        r1 == r2,
{
    let (s1, g1) = choose|s: T, g: T| weight_step_via(p, rate, e, x, s, g, r1);
    let (s2, g2) = choose|s: T, g: T| weight_step_via(p, rate, e, x, s, g, r2);
    assert(s1 == s2);
    assert(g1 == g2);
}

/// With functional operations a bias has one place to step to.
pub proof fn lemma_bias_step_functional<T: Scalar>(b: T, rate: T, e: T, r1: T, r2: T)
    requires
        functional::<T>(),
        is_bias_step(b, rate, e, r1),
        is_bias_step(b, rate, e, r2),
    ensures
        r1 == r2,
{
    let s1 = choose|s: T| bias_step_via(b, rate, e, s, r1);
    let s2 = choose|s: T| bias_step_via(b, rate, e, s, r2);
    assert(s1 == s2);
}

/// With functional operations a training step of a layer has one outcome:
/// the layer it leaves and the error it hands back.
pub proof fn lemma_layer_step_deterministic<T: Scalar>(
    layer: LayerModel<T>,
    x: Seq<T>,
    err: Seq<T>,
    rate: T,
    after1: LayerModel<T>,
    back1: Seq<T>,
    after2: LayerModel<T>,
    back2: Seq<T>,
)
    requires
        functional::<T>(),
        layer.wf(),
        layer.steps(x, err, rate, after1, back1),
        layer.steps(x, err, rate, after2, back2),
    ensures
        after1 == after2,
        back1 == back2,
{
    assert forall|i: int| 0 <= i < after1.rows.len() implies after1.rows[i] == after2.rows[i] by {
        assert(after1.rows[i].len() == layer.input_size);
        assert(after2.rows[i].len() == layer.input_size);
        assert forall|j: int| 0 <= j < layer.input_size implies after1.rows[i][j] == after2.rows[i][j] by {
            lemma_weight_step_functional(layer.rows[i][j], rate, err[i], x[j], after1.rows[i][j], after2.rows[i][j]);
        }
        assert(after1.rows[i] =~= after2.rows[i]);
    }
    assert(after1.rows =~= after2.rows);
    assert forall|i: int| 0 <= i < after1.biases.len() implies after1.biases[i] == after2.biases[i] by {
        lemma_bias_step_functional(layer.biases[i], rate, err[i], after1.biases[i], after2.biases[i]);
    }
    assert(after1.biases =~= after2.biases);
    assert forall|j: int| 0 <= j < back1.len() implies back1[j] == back2[j] by {
        lemma_dot_functional(column(layer.rows, j), err, back1[j], back2[j]);
    }
    assert(back1 =~= back2);
}

} // verus!
