//! A network: dense layers in sequence, each feeding the next.
use vstd::prelude::*;
use rand::rngs::StdRng;
use crate::error::ShapeError;
use crate::layer::{
    lemma_layer_forward_deterministic, lemma_layer_step_deterministic, InputLayer, Layer, LayerModel,
};
use crate::scalar::{functional, Scalar};
use crate::vector::{
    duplicate, is_residual, is_scaled_error, lemma_residual_functional, lemma_scaled_error_functional, residual,
    scale_by_slope,
};

verus! {

/// There is at least one layer, every layer is well formed, and each layer
/// takes as many inputs as the layer before it gives outputs.
pub open spec fn linked<T: Scalar>(layers: Seq<LayerModel<T>>) -> bool {
    &&& layers.len() >= 1
    &&& forall|k: int| 0 <= k < layers.len() ==> (#[trigger] layers[k]).wf()
    &&& forall|k: int|
        0 <= k < layers.len() - 1 ==> (#[trigger] layers[k]).output_size() == layers[k + 1].input_size
}

/// The sizes `[s0, s1, ..., sn]` of a network of `n` layers: what the first
/// layer takes, then what each layer gives.
pub open spec fn sizes_of<T: Scalar>(layers: Seq<LayerModel<T>>) -> Seq<nat> {
    Seq::new(
        layers.len() + 1,
        |k: int|
            if k == 0 {
                layers[0].input_size
            } else {
                layers[k - 1].output_size()
            },
    )
}

/// `acts` records a forward pass: `acts[k]` is what layer `k` was fed and
/// `acts[k + 1]` an output of layer `k` on it.
pub open spec fn passes<T: Scalar>(layers: Seq<LayerModel<T>>, acts: Seq<Seq<T>>) -> bool {
    &&& acts.len() == layers.len() + 1
    &&& forall|k: int| 0 <= k < layers.len() ==> (#[trigger] layers[k]).maps(acts[k], acts[k + 1])
}

/// `out` is an output of the network on the input `x`: the input folded
/// through every layer in order.
pub open spec fn network_maps<T: Scalar>(layers: Seq<LayerModel<T>>, x: Seq<T>, out: Seq<T>) -> bool {
    exists|acts: Seq<Seq<T>>| passes(layers, acts) && acts[0] == x && acts.last() == out
}

/// `errs` records a backward pass that takes the layers `before` to `after`:
/// layer `k` makes its training step on what it was fed, `acts[k]`, and the
/// error `errs[k + 1]`, and hands `errs[k]` to the layer before it.
pub open spec fn descends<T: Scalar>(
    before: Seq<LayerModel<T>>,
    acts: Seq<Seq<T>>,
    errs: Seq<Seq<T>>,
    rate: T,
    after: Seq<LayerModel<T>>,
) -> bool {
    &&& after.len() == before.len()
    &&& errs.len() == before.len() + 1
    &&& forall|k: int|
        0 <= k < before.len() ==> (#[trigger] before[k]).steps(acts[k], errs[k + 1], rate, after[k], errs[k])
}

/// One training step on the example `(x, target)` takes the layers `before`
/// to `after`: a forward pass on `x`, the plain residual `output - target` as
/// the error of the last layer, and a backward pass from the last layer to
/// the first.
pub open spec fn trains<T: Scalar>(
    before: Seq<LayerModel<T>>,
    x: Seq<T>,
    target: Seq<T>,
    rate: T,
    after: Seq<LayerModel<T>>,
) -> bool {
    exists|acts: Seq<Seq<T>>, errs: Seq<Seq<T>>|
        {
            &&& passes(before, acts)
            &&& acts[0] == x
            &&& is_residual(acts.last(), target, errs.last())
            &&& descends(before, acts, errs, rate, after)
        }
}

/// `errs` and `sent` record a backward pass with the chain rule applied at
/// the hidden layers. The last layer is sent the error `errs.last()` as it
/// is; every layer `k` before it is sent `errs[k + 1]` scaled by the slope of
/// the sigmoid at its own outputs, `acts[k + 1]`. Layer `k` makes its
/// training step on what it was fed and what it was sent, and hands `errs[k]`
/// further.
pub open spec fn descends_scaled<T: Scalar>(
    before: Seq<LayerModel<T>>,
    acts: Seq<Seq<T>>,
    errs: Seq<Seq<T>>,
    sent: Seq<Seq<T>>,
    rate: T,
    after: Seq<LayerModel<T>>,
) -> bool {
    &&& after.len() == before.len()
    &&& errs.len() == before.len() + 1
    &&& sent.len() == before.len()
    &&& sent.last() == errs.last()
    &&& forall|k: int| 0 <= k < before.len() - 1 ==> is_scaled_error(errs[k + 1], acts[k + 1], #[trigger] sent[k])
    &&& forall|k: int|
        0 <= k < before.len() ==> (#[trigger] before[k]).steps(acts[k], sent[k], rate, after[k], errs[k])
}

/// One training step with the chain rule on the example `(x, target)` takes
/// the layers `before` to `after`: a forward pass on `x`, the plain residual
/// `output - target` as the error of the last layer, and a backward pass in
/// which each hidden layer's error is scaled by the slope at its outputs.
pub open spec fn trains_scaled<T: Scalar>(
    before: Seq<LayerModel<T>>,
    x: Seq<T>,
    target: Seq<T>,
    rate: T,
    after: Seq<LayerModel<T>>,
) -> bool {
    exists|acts: Seq<Seq<T>>, errs: Seq<Seq<T>>, sent: Seq<Seq<T>>|
        {
            &&& passes(before, acts)
            &&& acts[0] == x
            &&& is_residual(acts.last(), target, errs.last())
            &&& descends_scaled(before, acts, errs, sent, rate, after)
        }
}

/// What each entry of `rec` holds, as a sequence.
spec fn recorded<T>(rec: Seq<InputLayer<T>>) -> Seq<Seq<T>> {
    Seq::new(rec.len(), |k: int| rec[k].inputs@)
}

/// An ordered sequence of layers. It holds nothing else: no call leaves a
/// trace in it but the training step, which changes the layers' parameters.
///
/// The field is private, every constructor gives a linked network and the
/// training steps keep it linked: the `requires` of the methods below holds
/// of every network there is.
pub struct Network<T> {
    layers: Vec<Layer<T>>,
}

impl<T: Scalar> View for Network<T> {
    type V = Seq<LayerModel<T>>;

    closed spec fn view(&self) -> Seq<LayerModel<T>> {
        Seq::new(self.layers@.len(), |k: int| self.layers@[k]@)
    }
}

impl<T: Scalar> Network<T> {
    /// The network of the given layers, first to last. There must be a layer,
    /// and each must take what the one before it gives.
    pub fn from_layers(layers: Vec<Layer<T>>) -> (r: Result<Self, ShapeError>)
        requires
            forall|k: int| 0 <= k < layers@.len() ==> (#[trigger] layers@[k])@.wf(),
        ensures
            match r {
                Ok(net) => {
                    &&& linked(net@)
                    &&& net@ == Seq::new(layers@.len(), |k: int| layers@[k]@)
                },
                Err(ShapeError::Empty) => layers@.len() == 0,
                Err(ShapeError::Link { layer, expected, actual }) => {
                    &&& 1 <= layer < layers@.len()
                    &&& expected == layers@[layer - 1]@.output_size()
                    &&& actual == layers@[layer as int]@.input_size
                    &&& expected != actual
                    &&& forall|k: int|
                        1 <= k < layer ==> layers@[k - 1]@.output_size() == (#[trigger] layers@[k])@.input_size
                },
                Err(_) => false,
            },
    {
        if layers.len() == 0 {
            return Err(ShapeError::Empty);
        }
        let mut k: usize = 1;
        while k < layers.len()
            invariant
                1 <= k <= layers.len(),
                forall|c: int| 1 <= c < k ==> layers@[c - 1]@.output_size() == (#[trigger] layers@[c])@.input_size,
            decreases layers.len() - k,
        {
            let expected = layers[k - 1].output_size();
            let actual = layers[k].input_size();
            if expected != actual {
                return Err(ShapeError::Link { layer: k, expected, actual });
            }
            k += 1;
        }
        let net = Network { layers };
        proof {
            assert forall|c: int| 0 <= c < net@.len() - 1 implies (#[trigger] net@[c]).output_size() == net@[c
                + 1].input_size by {
                assert(layers@[c + 1 - 1]@.output_size() == layers@[c + 1]@.input_size);
            }
        }
        Ok(net)
    }

    /// A network of the sizes `[s0, s1, ..., sn]`: `n` layers, layer `k`
    /// taking `sizes[k]` inputs and giving `sizes[k + 1]` outputs, with every
    /// weight and bias drawn from `rng`, first layer first. Two sizes at least
    /// are needed to make a layer.
    pub fn random(sizes: &Vec<usize>, rng: &mut StdRng) -> (r: Result<Self, ShapeError>)
        ensures
            match r {
                Ok(net) => {
                    &&& sizes@.len() >= 2
                    &&& linked(net@)
                    &&& sizes_of(net@) == sizes@.map_values(|s: usize| s as nat)
                    &&& forall|k: int| 0 <= k < net@.len() ==> (#[trigger] net@[k]).drawn()
                },
                Err(e) => {
                    &&& sizes@.len() < 2
                    &&& e == ShapeError::Empty
                },
            },
    {
        if sizes.len() < 2 {
            return Err(ShapeError::Empty);
        }
        let mut layers: Vec<Layer<T>> = Vec::new();
        let mut k: usize = 0;
        while k + 1 < sizes.len()
            invariant
                k + 1 <= sizes.len(),
                layers@.len() == k,
                forall|c: int| 0 <= c < k ==> (#[trigger] layers@[c])@.wf(),
                forall|c: int| 0 <= c < k ==> (#[trigger] layers@[c])@.input_size == sizes@[c],
                forall|c: int| 0 <= c < k ==> (#[trigger] layers@[c])@.output_size() == sizes@[c + 1],
                forall|c: int| 0 <= c < k ==> (#[trigger] layers@[c])@.drawn(),
            decreases sizes.len() - k,
        {
            let layer: Layer<T> = Layer::random(sizes[k], sizes[k + 1], rng);
            layers.push(layer);
            k += 1;
        }
        let net = Network { layers };
        proof {
            assert forall|c: int| 0 <= c < net@.len() implies (#[trigger] net@[c]).wf() by {
                assert(layers@[c]@.wf());
            }
            assert forall|c: int| 0 <= c < net@.len() - 1 implies (#[trigger] net@[c]).output_size() == net@[c
                + 1].input_size by {
                assert(layers@[c]@.output_size() == sizes@[c + 1]);
                assert(layers@[c + 1]@.input_size == sizes@[c + 1]);
            }
            assert forall|c: int| 0 <= c < net@.len() implies (#[trigger] net@[c]).drawn() by {
                assert(layers@[c]@.drawn());
            }
            assert forall|c: int| 0 <= c < sizes@.len() implies sizes_of(net@)[c] == sizes@[c] as nat by {
                if c == 0 {
                    assert(layers@[0]@.input_size == sizes@[0]);
                } else {
                    assert(layers@[c - 1]@.output_size() == sizes@[c - 1 + 1]);
                }
            }
            assert(sizes_of(net@) =~= sizes@.map_values(|s: usize| s as nat));
        }
        Ok(net)
    }

    /// The number of layers.
    pub fn depth(&self) -> (r: usize)
        ensures
            r == self@.len(),
    {
        self.layers.len()
    }

    /// Layer `k`.
    pub fn layer(&self, k: usize) -> (r: &Layer<T>)
        requires
            k < self@.len(),
        ensures
            r@ == self@[k as int],
    {
        &self.layers[k]
    }

    /// The sizes `[s0, s1, ..., sn]` of the network.
    pub fn sizes(&self) -> (r: Vec<usize>)
        requires
            linked(self@),
        ensures
            r@.len() == self@.len() + 1,
            forall|k: int| 0 <= k < r@.len() ==> #[trigger] r@[k] == sizes_of(self@)[k],
    {
        let mut r: Vec<usize> = Vec::new();
        r.push(self.layers[0].input_size());
        let mut k: usize = 0;
        while k < self.layers.len()
            invariant
                k <= self.layers.len(),
                self@.len() >= 1,
                r@.len() == k + 1,
                forall|c: int| 0 <= c < r@.len() ==> #[trigger] r@[c] == sizes_of(self@)[c],
            decreases self.layers.len() - k,
        {
            r.push(self.layers[k].output_size());
            k += 1;
        }
        r
    }

    /// A forward pass that keeps what every layer was fed: entry `k` is the
    /// input of layer `k`, and the last entry is the network's output.
    fn feed(&self, input: &Vec<T>) -> (r: Result<Vec<InputLayer<T>>, ShapeError>)
        requires
            linked(self@),
        ensures
            match r {
                Ok(rec) => {
                    &&& input@.len() == self@[0].input_size
                    &&& passes(self@, recorded(rec@))
                    &&& rec@[0].inputs@ == input@
                    &&& forall|k: int| 0 <= k < self@.len() ==> (#[trigger] rec@[k]).inputs@.len() == self@[k].input_size
                    &&& rec@.last().inputs@.len() == self@.last().output_size()
                },
                Err(e) => {
                    &&& input@.len() != self@[0].input_size
                    &&& e == (ShapeError::Input {
                        layer: 0,
                        expected: self@[0].input_size as usize,
                        actual: input@.len() as usize,
                    })
                },
            },
    {
        let first = self.layers[0].input_size();
        if input.len() != first {
            return Err(ShapeError::Input { layer: 0, expected: first, actual: input.len() });
        }
        let mut rec: Vec<InputLayer<T>> = Vec::new();
        rec.push(InputLayer::new(duplicate(input)));
        let mut k: usize = 0;
        while k < self.layers.len()
            invariant
                k <= self.layers.len(),
                linked(self@),
                rec@.len() == k + 1,
                rec@[0].inputs@ == input@,
                input@.len() == self@[0].input_size,
                forall|c: int| 0 <= c < k ==> (#[trigger] self@[c]).maps(rec@[c].inputs@, rec@[c + 1].inputs@),
                forall|c: int|
                    0 <= c <= k && c < self@.len() ==> (#[trigger] rec@[c]).inputs@.len() == self@[c].input_size,
                k == self@.len() ==> rec@[k as int].inputs@.len() == self@.last().output_size(),
            decreases self.layers.len() - k,
        {
            assert(self@[k as int].wf());
            let ghost prev = rec@;
            match self.layers[k].forward_prop(&rec[k]) {
                Ok(out) => {
                    rec.push(InputLayer::new(out));
                    proof {
                        assert forall|c: int| 0 <= c < k + 1 implies (#[trigger] self@[c]).maps(
                            rec@[c].inputs@,
                            rec@[c + 1].inputs@,
                        ) by {
                            if c < k {
                                assert(self@[c].maps(prev[c].inputs@, prev[c + 1].inputs@));
                            }
                        }
                        assert(self@[k as int].output_size() == out@.len());
                    }
                },
                Err(e) => {
                    return Err(e);
                },
            }
            k += 1;
        }
        proof {
            let acts = recorded(rec@);
            assert forall|c: int| 0 <= c < self@.len() implies (#[trigger] self@[c]).maps(acts[c], acts[c + 1]) by {
                assert(self@[c].maps(rec@[c].inputs@, rec@[c + 1].inputs@));
            }
        }
        Ok(rec)
    }

    /// The network's output on an input: the input folded through every
    /// layer in order. The network is not changed. An input that is not as
    /// long as the first layer asks is refused.
    pub fn forward(&self, input: &Vec<T>) -> (r: Result<Vec<T>, ShapeError>)
        requires
            linked(self@),
        ensures
            match r {
                Ok(out) => {
                    &&& input@.len() == sizes_of(self@)[0]
                    &&& out@.len() == sizes_of(self@).last()
                    &&& network_maps(self@, input@, out@)
                },
                Err(e) => {
                    &&& input@.len() != sizes_of(self@)[0]
                    &&& e == (ShapeError::Input {
                        layer: 0,
                        expected: sizes_of(self@)[0] as usize,
                        actual: input@.len() as usize,
                    })
                },
            },
    {
        match self.feed(input) {
            Ok(mut rec) => {
                let ghost acts = recorded(rec@);
                let last = rec.pop();
                match last {
                    Some(out) => {
                        assert(acts[0] == input@);
                        assert(acts.last() == out.inputs@);
                        Ok(out.inputs)
                    },
                    None => Ok(Vec::new()),
                }
            },
            Err(e) => Err(e),
        }
    }

    /// One training step on the example `(input, target)`, in place.
    ///
    /// The forward pass is run again and what it fed to every layer is kept
    /// for this call alone. The error of the last layer is the plain residual
    /// `output - target`; then the layers make their steps from the last to
    /// the first, each handing its error to the one before it as it is: the
    /// slope of the sigmoid is applied nowhere. Lengths are tested before any
    /// parameter is touched: on a length that does not fit the network is
    /// left as it was.
    ///
    /// Without the slope a hidden layer cannot tell apart examples whose
    /// errors cancel, which is what the rows of exclusive-or do; see
    /// [`Network::backward_scaled`].
    pub fn backward(&mut self, input: &Vec<T>, target: &Vec<T>, learning_rate: T) -> (r: Result<(), ShapeError>)
        requires
            linked(old(self)@),
        ensures
            linked(final(self)@),
            sizes_of(final(self)@) == sizes_of(old(self)@),
            match r {
                Ok(_) => {
                    &&& input@.len() == sizes_of(old(self)@)[0]
                    &&& target@.len() == sizes_of(old(self)@).last()
                    &&& trains(old(self)@, input@, target@, learning_rate, final(self)@)
                },
                Err(e) => {
                    &&& final(self)@ == old(self)@
                    &&& e == refusal(sizes_of(old(self)@), input@.len(), target@.len())
                    &&& !fits_example(sizes_of(old(self)@), input@.len(), target@.len())
                },
            },
    {
        self.step(input, target, learning_rate, false)
    }

    /// One training step on the example `(input, target)`, in place, with the
    /// chain rule: as [`Network::backward`], but the error that a hidden
    /// layer is sent is first scaled, unit by unit, by the slope of the
    /// sigmoid at the layer's output, `out * (1 - out)`. The last layer is
    /// sent the plain residual.
    pub fn backward_scaled(&mut self, input: &Vec<T>, target: &Vec<T>, learning_rate: T) -> (r: Result<
        (),
        ShapeError,
    >)
        requires
            linked(old(self)@),
        ensures
            linked(final(self)@),
            sizes_of(final(self)@) == sizes_of(old(self)@),
            match r {
                Ok(_) => {
                    &&& input@.len() == sizes_of(old(self)@)[0]
                    &&& target@.len() == sizes_of(old(self)@).last()
                    &&& trains_scaled(old(self)@, input@, target@, learning_rate, final(self)@)
                },
                Err(e) => {
                    &&& final(self)@ == old(self)@
                    &&& e == refusal(sizes_of(old(self)@), input@.len(), target@.len())
                    &&& !fits_example(sizes_of(old(self)@), input@.len(), target@.len())
                },
            },
    {
        self.step(input, target, learning_rate, true)
    }

    /// One training step, with or without the chain rule.
    fn step(&mut self, input: &Vec<T>, target: &Vec<T>, learning_rate: T, scaled: bool) -> (r: Result<
        (),
        ShapeError,
    >)
        requires
            linked(old(self)@),
        ensures
            linked(final(self)@),
            sizes_of(final(self)@) == sizes_of(old(self)@),
            match r {
                Ok(_) => {
                    &&& input@.len() == sizes_of(old(self)@)[0]
                    &&& target@.len() == sizes_of(old(self)@).last()
                    &&& scaled ==> trains_scaled(old(self)@, input@, target@, learning_rate, final(self)@)
                    &&& !scaled ==> trains(old(self)@, input@, target@, learning_rate, final(self)@)
                },
                Err(e) => {
                    &&& final(self)@ == old(self)@
                    &&& e == refusal(sizes_of(old(self)@), input@.len(), target@.len())
                    &&& !fits_example(sizes_of(old(self)@), input@.len(), target@.len())
                },
            },
    {
        let n = self.layers.len();
        let rec = match self.feed(input) {
            Ok(rec) => rec,
            Err(e) => {
                return Err(e);
            },
        };
        let expected = self.layers[n - 1].output_size();
        if target.len() != expected {
            return Err(ShapeError::Signal { layer: n - 1, expected, actual: target.len() });
        }
        let ghost before = self@;
        let ghost acts = recorded(rec@);
        let mut err = residual(&rec[n].inputs, target);
        let ghost mut errs: Seq<Seq<T>> = Seq::new((n + 1) as nat, |c: int| err@);
        let ghost mut sent: Seq<Seq<T>> = Seq::new(n as nat, |c: int| err@);
        let mut k: usize = n;
        while k > 0
            invariant
                k <= n,
                n == before.len(),
                linked(before),
                passes(before, acts),
                acts == recorded(rec@),
                rec@.len() == n + 1,
                forall|c: int| 0 <= c < n ==> (#[trigger] rec@[c]).inputs@.len() == before[c].input_size,
                self@.len() == n,
                errs.len() == n + 1,
                sent.len() == n,
                is_residual(acts.last(), target@, errs.last()),
                errs[k as int] == err@,
                k == n ==> err@.len() == before.last().output_size(),
                k < n ==> err@.len() == before[k as int].input_size,
                forall|c: int| 0 <= c < k ==> #[trigger] self@[c] == before[c],
                forall|c: int|
                    k <= c < n ==> (#[trigger] before[c]).steps(acts[c], sent[c], learning_rate, self@[c], errs[c]),
                forall|c: int|
                    k <= c < n ==> if scaled && c < n - 1 {
                        is_scaled_error(errs[c + 1], acts[c + 1], #[trigger] sent[c])
                    } else {
                        sent[c] == errs[c + 1]
                    },
            decreases k,
        {
            let ghost prev = self@;
            let ghost prev_errs = errs;
            let ghost prev_sent = sent;
            assert(self@[k - 1] == before[k - 1]);
            assert(before[k - 1].wf());
            assert(before[k - 1].output_size() == err@.len()) by {
                if k < n {
                    assert(before[k - 1].output_size() == before[k - 1 + 1].input_size);
                }
            }
            assert(rec@[k - 1].inputs@.len() == before[k - 1].input_size);
            if scaled && k < n {
                assert(rec@[k as int].inputs@.len() == before[k as int].input_size);
                err = scale_by_slope(&err, &rec[k].inputs);
                assert(acts[k as int] == rec@[k as int].inputs@);
            }
            match self.layers[k - 1].backward_prop(&rec[k - 1], &err, learning_rate) {
                Ok(back) => {
                    proof {
                        sent = sent.update(k - 1, err@);
                        errs = errs.update(k - 1, back@);
                        assert(self@.len() == n);
                        assert forall|c: int| 0 <= c < k - 1 implies #[trigger] self@[c] == before[c] by {
                            assert(prev[c] == before[c]);
                        }
                        assert forall|c: int| k - 1 <= c < n implies (#[trigger] before[c]).steps(
                            acts[c],
                            sent[c],
                            learning_rate,
                            self@[c],
                            errs[c],
                        ) by {
                            if c >= k {
                                assert(before[c].steps(
                                    acts[c],
                                    prev_sent[c],
                                    learning_rate,
                                    prev[c],
                                    prev_errs[c],
                                ));
                                assert(self@[c] == prev[c]);
                            } else {
                                assert(acts[c] == rec@[c].inputs@);
                            }
                        }
                        assert forall|c: int| k - 1 <= c < n implies if scaled && c < n - 1 {
                            is_scaled_error(errs[c + 1], acts[c + 1], #[trigger] sent[c])
                        } else {
                            sent[c] == errs[c + 1]
                        } by {
                            if c >= k {
                                assert(sent[c] == prev_sent[c]);
                                assert(errs[c + 1] == prev_errs[c + 1]);
                            }
                        }
                    }
                    err = back;
                },
                Err(e) => {
                    return Err(e);
                },
            }
            k -= 1;
        }
        proof {
            assert(acts[0] == input@);
            lemma_steps_keep_links(before, acts, sent, errs, learning_rate, self@);
            if scaled {
                assert(sent.last() == errs.last());
                assert(descends_scaled(before, acts, errs, sent, learning_rate, self@));
            } else {
                assert forall|c: int| 0 <= c < n implies (#[trigger] before[c]).steps(
                    acts[c],
                    errs[c + 1],
                    learning_rate,
                    self@[c],
                    errs[c],
                ) by {
                    assert(before[c].steps(acts[c], sent[c], learning_rate, self@[c], errs[c]));
                }
                assert(descends(before, acts, errs, learning_rate, self@));
            }
        }
        Ok(())
    }
}

/// The example fits a network of the given sizes: the input is as long as
/// the first size and the target as long as the last.
pub open spec fn fits_example(sizes: Seq<nat>, input_len: nat, target_len: nat) -> bool {
    input_len == sizes[0] && target_len == sizes.last()
}

/// What a training step answers to an example that does not fit: the input
/// is named first, as layer 0 takes it, then the target, which is held
/// against the last layer.
pub open spec fn refusal(sizes: Seq<nat>, input_len: nat, target_len: nat) -> ShapeError {
    if input_len != sizes[0] {
        ShapeError::Input { layer: 0, expected: sizes[0] as usize, actual: input_len as usize }
    } else {
        ShapeError::Signal {
            layer: (sizes.len() - 2) as usize,
            expected: sizes.last() as usize,
            actual: target_len as usize,
        }
    }
}

/// With functional operations two records of a forward pass on one input
/// agree at every layer.
pub proof fn lemma_passes_agree<T: Scalar>(
    layers: Seq<LayerModel<T>>,
    acts1: Seq<Seq<T>>,
    acts2: Seq<Seq<T>>,
    k: int,
)
    requires
        functional::<T>(),
        passes(layers, acts1),
        passes(layers, acts2),
        acts1[0] == acts2[0],
        0 <= k <= layers.len(),
    ensures
        acts1[k] == acts2[k],
    decreases k,
{
    if k > 0 {
        lemma_passes_agree(layers, acts1, acts2, k - 1);
        assert(layers[k - 1].maps(acts1[k - 1], acts1[k - 1 + 1]));
        assert(layers[k - 1].maps(acts2[k - 1], acts2[k - 1 + 1]));
        lemma_layer_forward_deterministic(layers[k - 1], acts1[k - 1], acts1[k], acts2[k]);
    }
}

/// The forward pass has no hidden state: with functional operations the same
/// layers give the same output on the same input, every time.
pub proof fn lemma_forward_deterministic<T: Scalar>(
    layers: Seq<LayerModel<T>>,
    x: Seq<T>,
    out1: Seq<T>,
    out2: Seq<T>,
)
    requires
        functional::<T>(),
        network_maps(layers, x, out1),
        network_maps(layers, x, out2),
    ensures
        out1 == out2,
{
    let acts1 = choose|acts: Seq<Seq<T>>| passes(layers, acts) && acts[0] == x && acts.last() == out1;
    let acts2 = choose|acts: Seq<Seq<T>>| passes(layers, acts) && acts[0] == x && acts.last() == out2;
    lemma_passes_agree(layers, acts1, acts2, layers.len() as int);
}

/// On an input of the network's first size the output has its last size.
pub proof fn lemma_forward_shape<T: Scalar>(layers: Seq<LayerModel<T>>, x: Seq<T>, out: Seq<T>)
    requires
        linked(layers),
        network_maps(layers, x, out),
    ensures
        out.len() == sizes_of(layers).last(),
{
    let acts = choose|acts: Seq<Seq<T>>| passes(layers, acts) && acts[0] == x && acts.last() == out;
    let n = layers.len() as int;
    assert(layers[n - 1].maps(acts[n - 1], acts[n - 1 + 1]));
    assert(layers[n - 1].wf());
}

/// With functional operations two records of a backward pass that start
/// from one error agree from the last layer down to layer `k`.
pub proof fn lemma_descents_agree<T: Scalar>(
    before: Seq<LayerModel<T>>,
    acts: Seq<Seq<T>>,
    errs1: Seq<Seq<T>>,
    errs2: Seq<Seq<T>>,
    rate: T,
    after1: Seq<LayerModel<T>>,
    after2: Seq<LayerModel<T>>,
    k: int,
)
    requires
        functional::<T>(),
        linked(before),
        descends(before, acts, errs1, rate, after1),
        descends(before, acts, errs2, rate, after2),
        errs1.last() == errs2.last(),
        0 <= k <= before.len(),
    ensures
        errs1[k] == errs2[k],
        forall|c: int| k <= c < before.len() ==> after1[c] == after2[c],
    decreases before.len() - k,
{
    if k < before.len() {
        lemma_descents_agree(before, acts, errs1, errs2, rate, after1, after2, k + 1);
        assert(before[k].steps(acts[k], errs1[k + 1], rate, after1[k], errs1[k]));
        assert(before[k].steps(acts[k], errs2[k + 1], rate, after2[k], errs2[k]));
        lemma_layer_step_deterministic(before[k], acts[k], errs1[k + 1], rate, after1[k], errs1[k], after2[k], errs2[k]);
    }
}

/// A training step depends on nothing but the network, the example and the
/// learning rate: with functional operations it has one outcome.
pub proof fn lemma_training_deterministic<T: Scalar>(
    before: Seq<LayerModel<T>>,
    x: Seq<T>,
    target: Seq<T>,
    rate: T,
    after1: Seq<LayerModel<T>>,
    after2: Seq<LayerModel<T>>,
)
    requires
        functional::<T>(),
        linked(before),
        trains(before, x, target, rate, after1),
        trains(before, x, target, rate, after2),
    ensures
        after1 == after2,
{
    let (acts1, errs1) = choose|acts: Seq<Seq<T>>, errs: Seq<Seq<T>>|
        {
            &&& passes(before, acts)
            &&& acts[0] == x
            &&& is_residual(acts.last(), target, errs.last())
            &&& descends(before, acts, errs, rate, after1)
        };
    let (acts2, errs2) = choose|acts: Seq<Seq<T>>, errs: Seq<Seq<T>>|
        {
            &&& passes(before, acts)
            &&& acts[0] == x
            &&& is_residual(acts.last(), target, errs.last())
            &&& descends(before, acts, errs, rate, after2)
        };
    assert forall|k: int| 0 <= k < acts1.len() implies acts1[k] == acts2[k] by {
        lemma_passes_agree(before, acts1, acts2, k);
    }
    assert(acts1 =~= acts2);
    lemma_residual_functional(acts1.last(), target, errs1.last(), errs2.last());
    lemma_descents_agree(before, acts1, errs1, errs2, rate, after1, after2, 0);
    assert(after1 =~= after2);
}

/// Training steps leave every layer its shape, and so the network its sizes
/// and its links, whatever error each layer was sent.
pub proof fn lemma_steps_keep_links<T: Scalar>(
    before: Seq<LayerModel<T>>,
    acts: Seq<Seq<T>>,
    sent: Seq<Seq<T>>,
    errs: Seq<Seq<T>>,
    rate: T,
    after: Seq<LayerModel<T>>,
)
    requires
        linked(before),
        after.len() == before.len(),
        forall|k: int|
            0 <= k < before.len() ==> (#[trigger] before[k]).steps(acts[k], sent[k], rate, after[k], errs[k]),
    ensures
        linked(after),
        sizes_of(after) == sizes_of(before),
{
    assert forall|k: int| 0 <= k < after.len() implies (#[trigger] after[k]).wf() && after[k].input_size
        == before[k].input_size && after[k].output_size() == before[k].output_size() by {
        assert(before[k].steps(acts[k], sent[k], rate, after[k], errs[k]));
        assert(before[k].wf());
    }
    assert forall|k: int| 0 <= k < after.len() - 1 implies (#[trigger] after[k]).output_size() == after[k
        + 1].input_size by {
        assert(before[k].output_size() == before[k + 1].input_size);
        assert(after[k + 1].wf());
    }
    assert(sizes_of(after) =~= sizes_of(before));
}

/// With functional operations two records of a backward pass with the chain
/// rule that start from one error agree from the last layer down to layer
/// `k`.
pub proof fn lemma_scaled_descents_agree<T: Scalar>(
    before: Seq<LayerModel<T>>,
    acts: Seq<Seq<T>>,
    errs1: Seq<Seq<T>>,
    sent1: Seq<Seq<T>>,
    errs2: Seq<Seq<T>>,
    sent2: Seq<Seq<T>>,
    rate: T,
    after1: Seq<LayerModel<T>>,
    after2: Seq<LayerModel<T>>,
    k: int,
)
    requires
        functional::<T>(),
        linked(before),
        descends_scaled(before, acts, errs1, sent1, rate, after1),
        descends_scaled(before, acts, errs2, sent2, rate, after2),
        errs1.last() == errs2.last(),
        0 <= k <= before.len(),
    ensures
        errs1[k] == errs2[k],
        forall|c: int| k <= c < before.len() ==> after1[c] == after2[c],
    decreases before.len() - k,
{
    if k < before.len() {
        lemma_scaled_descents_agree(before, acts, errs1, sent1, errs2, sent2, rate, after1, after2, k + 1);
        if k < before.len() - 1 {
            assert(is_scaled_error(errs1[k + 1], acts[k + 1], sent1[k]));
            assert(is_scaled_error(errs2[k + 1], acts[k + 1], sent2[k]));
            lemma_scaled_error_functional(errs1[k + 1], acts[k + 1], sent1[k], sent2[k]);
        }
        assert(before[k].steps(acts[k], sent1[k], rate, after1[k], errs1[k]));
        assert(before[k].steps(acts[k], sent2[k], rate, after2[k], errs2[k]));
        lemma_layer_step_deterministic(before[k], acts[k], sent1[k], rate, after1[k], errs1[k], after2[k], errs2[k]);
    }
}

/// A training step with the chain rule depends on nothing but the network,
/// the example and the learning rate: with functional operations it has one
/// outcome.
pub proof fn lemma_scaled_training_deterministic<T: Scalar>(
    before: Seq<LayerModel<T>>,
    x: Seq<T>,
    target: Seq<T>,
    rate: T,
    after1: Seq<LayerModel<T>>,
    after2: Seq<LayerModel<T>>,
)
    requires
        functional::<T>(),
        linked(before),
        trains_scaled(before, x, target, rate, after1),
        trains_scaled(before, x, target, rate, after2),
    ensures
        after1 == after2,
{
    let (acts1, errs1, sent1) = choose|acts: Seq<Seq<T>>, errs: Seq<Seq<T>>, sent: Seq<Seq<T>>|
        {
            &&& passes(before, acts)
            &&& acts[0] == x
            &&& is_residual(acts.last(), target, errs.last())
            &&& descends_scaled(before, acts, errs, sent, rate, after1)
        };
    let (acts2, errs2, sent2) = choose|acts: Seq<Seq<T>>, errs: Seq<Seq<T>>, sent: Seq<Seq<T>>|
        {
            &&& passes(before, acts)
            &&& acts[0] == x
            &&& is_residual(acts.last(), target, errs.last())
            &&& descends_scaled(before, acts, errs, sent, rate, after2)
        };
    assert forall|k: int| 0 <= k < acts1.len() implies acts1[k] == acts2[k] by {
        lemma_passes_agree(before, acts1, acts2, k);
    }
    assert(acts1 =~= acts2);
    lemma_residual_functional(acts1.last(), target, errs1.last(), errs2.last());
    lemma_scaled_descents_agree(before, acts1, errs1, sent1, errs2, sent2, rate, after1, after2, 0);
    assert(after1 =~= after2);
}

} // verus!
