//! Evaluating the network.

use vstd::prelude::*;
use super::accumulator::Accumulator;
use super::network::NnueNetwork;
use super::HIDDEN_SIZE;
use crate::arith::{clamp, div_i64, quot};
use crate::types::Color;

verus! {

/// The output bucket for a number of pieces.
pub open spec fn bucket_for(piece_count: int) -> int {
    let b = if piece_count < 2 { 0 } else { (piece_count - 2) / 4 };
    if b > 7 { 7 } else { b }
}

pub fn output_bucket(piece_count: u32) -> (r: usize)
    ensures
        r == bucket_for(piece_count as int),
        r < 8,
{
    let b: u32 = if piece_count < 2 { 0 } else { (piece_count - 2) / 4 };
    if b > 7 {
        7
    } else {
        b as usize
    }
}

/// Clipped activation of the feature transformer.
pub open spec fn crelu(v: i16) -> int {
    clamp(v as int, 0, 127)
}

/// Sum of products of paired activations and weights, over the first `n` pairs.
pub open spec fn pair_sum(acc: Seq<i16>, weights: Seq<i8>, offset: int, n: int) -> int
    decreases n,
{
    if n <= 0 {
        0
    } else {
        pair_sum(acc, weights, offset, n - 1) + crelu(acc[n - 1]) * crelu(acc[n - 1 + 512]) * weights[offset + n - 1]
    }
}

/// Sum of squared activations times weights from an offset on, over the first
/// `n` inputs.
pub open spec fn dense_sum(values: Seq<int>, weights: Seq<i8>, offset: int, n: int) -> int
    decreases n,
{
    if n <= 0 {
        0
    } else {
        dense_sum(values, weights, offset, n - 1) + clamp(values[n - 1], 0, 127) * clamp(values[n - 1], 0, 127)
            * weights[offset + n - 1]
    }
}

/// The activation of a dense neuron, quantised.
pub open spec fn activation(raw: int) -> int {
    clamp(quot(raw, 8128), 0, 127)
}

/// The input of a neuron of the first dense layer: own half, then other half.
pub open spec fn l1_raw(net: NnueNetwork, own: Seq<i16>, other: Seq<i16>, bucket: int, neuron: int) -> int {
    let row = bucket * net.l1_size + neuron;
    pair_sum(own, net.l1_weights@, row * 1024, 512) + pair_sum(other, net.l1_weights@, row * 1024 + 512, 512)
        + net.l1_biases@[row]
}

/// The output of the first dense layer.
pub open spec fn l1_out(net: NnueNetwork, own: Seq<i16>, other: Seq<i16>, bucket: int) -> Seq<int> {
    Seq::new(net.l1_size as nat, |n: int| activation(l1_raw(net, own, other, bucket, n)))
}

/// The input of a neuron of the second dense layer.
pub open spec fn l2_raw(net: NnueNetwork, l1: Seq<int>, bucket: int, neuron: int) -> int {
    let row = bucket * net.l2_size + neuron;
    dense_sum(l1, net.l2_weights@, row * net.l1_size, net.l1_size as int) + net.l2_biases@[row]
}

/// The output of the second dense layer.
pub open spec fn l2_out(net: NnueNetwork, l1: Seq<int>, bucket: int) -> Seq<int> {
    Seq::new(net.l2_size as nat, |n: int| activation(l2_raw(net, l1, bucket, n)))
}

/// The output of the last layer.
pub open spec fn l3_raw(net: NnueNetwork, l2: Seq<int>, bucket: int) -> int {
    dense_sum(l2, net.l3_weights@, bucket * net.l2_size, net.l2_size as int) + net.l3_biases@[bucket]
}

/// The value of the network, in centipawns for the side to move.
pub open spec fn network_value(net: NnueNetwork, acc: Accumulator, side: Color, piece_count: int) -> int {
    let bucket = bucket_for(piece_count);
    let l1 = l1_out(net, acc.half(side), acc.half(side.other()), bucket);
    let l2 = l2_out(net, l1, bucket);
    quot(l3_raw(net, l2, bucket) * 400, 1032256)
}

fn clip(v: i16) -> (r: i32)
    ensures
        r == crelu(v),
        0 <= r <= 127,
{
    if v < 0 {
        0
    } else if v > 127 {
        127
    } else {
        v as i32
    }
}

proof fn lemma_product(a: int, b: int, w: int)
    requires
        0 <= a <= 127,
        0 <= b <= 127,
        -128 <= w <= 127,
    ensures
        0 <= a * b <= 16129,
        -2064512 <= a * b * w <= 2064512,
{
    assert(0 <= a * b <= 16129) by (nonlinear_arith)
        requires
            0 <= a <= 127,
            0 <= b <= 127,
    ;
    let p = a * b;
    assert(-2064512 <= p * w <= 2064512) by (nonlinear_arith)
        requires
            0 <= p <= 16129,
            -128 <= w <= 127,
    ;
}

/// Sum of products of paired activations and weights from an offset on.
pub fn pairwise_crelu_sum(acc: &[i16; HIDDEN_SIZE], weights: &[i8], offset: usize) -> (r: i32)
    requires
        offset + 512 <= weights@.len(),
    ensures
        r == pair_sum(acc@, weights@, offset as int, 512),
        -1_057_030_144 <= r <= 1_057_030_144,
{
    let len: usize = weights.len();
    let mut sum: i32 = 0;
    let mut i: usize = 0;
    while i < 512
        invariant
            i <= 512,
            offset + 512 <= len == weights@.len(),
            sum == pair_sum(acc@, weights@, offset as int, i as int),
            -2064512 * i <= sum <= 2064512 * i,
        decreases 512 - i,
    {
        let a: i32 = clip(acc[i]);
        let b: i32 = clip(acc[i + 512]);
        let w: i32 = weights[offset + i] as i32;
        proof {
            lemma_product(a as int, b as int, w as int);
        }
        sum = sum + a * b * w;
        i = i + 1;
    }
    sum
}

/// Values and the numbers that they stand for.
spec fn same_values(v: Seq<i32>, g: Seq<int>) -> bool {
    v.len() == g.len() && forall|i: int| 0 <= i < v.len() ==> #[trigger] v[i] == g[i] && 0 <= v[i] <= 127
}

fn dense_screlu_sum(values: &Vec<i32>, weights: &Vec<i8>, offset: usize, Ghost(g): Ghost<Seq<int>>) -> (r: i64)
    requires
        same_values(values@, g),
        values@.len() <= 64,
        offset + values@.len() <= weights@.len(),
    ensures
        r == dense_sum(g, weights@, offset as int, values@.len() as int),
        -132_128_768 <= r <= 132_128_768,
{
    let len: usize = weights.len();
    let mut sum: i64 = 0;
    let mut i: usize = 0;
    while i < values.len()
        invariant
            i <= values@.len(),
            values@.len() <= 64,
            same_values(values@, g),
            offset + values@.len() <= len == weights@.len(),
            sum == dense_sum(g, weights@, offset as int, i as int),
            -2064512 * i <= sum <= 2064512 * i,
        decreases values@.len() - i,
    {
        let v: i32 = values[i];
        let w: i32 = weights[offset + i] as i32;
        proof {
            assert(v == g[i as int] && 0 <= v <= 127);
            lemma_product(v as int, v as int, w as int);
        }
        sum = sum + (v * v * w) as i64;
        i = i + 1;
    }
    sum
}

fn quantised_activation(raw: i64) -> (r: i32)
    ensures
        r == activation(raw as int),
        0 <= r <= 127,
{
    if raw < 0 {
        proof {
            crate::arith::lemma_quot_bounds(raw as int, 8128);
        }
        0
    } else {
        let v: i64 = raw / 8128;
        if v > 127 {
            127
        } else {
            v as i32
        }
    }
}

/// A row of one of eight buckets lies within all rows.
proof fn lemma_row(bucket: int, width: int, neuron: int)
    requires
        0 <= bucket < 8,
        0 <= neuron < width <= 64,
    ensures
        0 <= bucket * width + neuron < 8 * width,
        bucket * width <= 7 * width,
{
    assert(0 <= bucket * width <= 7 * width) by (nonlinear_arith)
        requires
            0 <= bucket < 8,
            0 <= width,
    ;
}

/// The inputs of a row lie within those of all rows.
proof fn lemma_row_inputs(row: int, rows: int, inputs: int)
    requires
        0 <= row < rows <= 512,
        1 <= inputs <= 64,
    ensures
        0 <= row * inputs,
        row * inputs + inputs <= rows * inputs <= 32768,
{
    assert(0 <= row * inputs && row * inputs + inputs <= rows * inputs <= 32768) by (nonlinear_arith)
        requires
            0 <= row < rows <= 512,
            1 <= inputs <= 64,
    ;
}

fn first_layer(acc: &Accumulator, side: Color, net: &NnueNetwork, bucket: usize) -> (r: Vec<i32>)
    requires
        net.ok(),
        bucket < 8,
    ensures
        same_values(r@, l1_out(*net, acc.half(side), acc.half(side.other()), bucket as int)),
{
    let (own, other) = match side {
        Color::White => (&acc.white, &acc.black),
        Color::Black => (&acc.black, &acc.white),
    };
    let ghost g = l1_out(*net, own@, other@, bucket as int);
    let mut out: Vec<i32> = Vec::new();
    let mut n: usize = 0;
    while n < net.l1_size
        invariant
            n <= net.l1_size,
            out@.len() == n,
            bucket < 8,
            net.ok(),
            g == l1_out(*net, own@, other@, bucket as int),
            forall|j: int| 0 <= j < n ==> #[trigger] out@[j] == g[j] && 0 <= out@[j] <= 127,
        decreases net.l1_size - n,
    {
        proof {
            lemma_row(bucket as int, net.l1_size as int, n as int);
        }
        let row: usize = bucket * net.l1_size + n;
        let a: i32 = pairwise_crelu_sum(own, net.l1_weights.as_slice(), row * 1024);
        let b: i32 = pairwise_crelu_sum(other, net.l1_weights.as_slice(), row * 1024 + 512);
        let bias: i32 = net.l1_biases[row];
        let v: i32 = quantised_activation(a as i64 + b as i64 + bias as i64);
        proof {
            assert(v == g[n as int]);
        }
        out.push(v);
        n = n + 1;
    }
    out
}

fn second_layer(l1: &Vec<i32>, net: &NnueNetwork, bucket: usize, Ghost(g1): Ghost<Seq<int>>) -> (r: Vec<i32>)
    requires
        net.ok(),
        bucket < 8,
        same_values(l1@, g1),
        g1.len() == net.l1_size,
    ensures
        same_values(r@, l2_out(*net, g1, bucket as int)),
{
    let ghost g = l2_out(*net, g1, bucket as int);
    let mut out: Vec<i32> = Vec::new();
    let mut n: usize = 0;
    while n < net.l2_size
        invariant
            n <= net.l2_size,
            out@.len() == n,
            bucket < 8,
            net.ok(),
            same_values(l1@, g1),
            g1.len() == net.l1_size,
            g == l2_out(*net, g1, bucket as int),
            forall|j: int| 0 <= j < n ==> #[trigger] out@[j] == g[j] && 0 <= out@[j] <= 127,
        decreases net.l2_size - n,
    {
        proof {
            lemma_row(bucket as int, net.l2_size as int, n as int);
            lemma_row_inputs(bucket * net.l2_size + n, 8 * net.l2_size, net.l1_size as int);
            assert((8 * net.l2_size) * net.l1_size == 8 * (net.l2_size * net.l1_size)) by (nonlinear_arith);
        }
        let row: usize = bucket * net.l2_size + n;
        let sum: i64 = dense_screlu_sum(l1, &net.l2_weights, row * net.l1_size, Ghost(g1));
        let v: i32 = quantised_activation(sum + net.l2_biases[row] as i64);
        proof {
            assert(v == g[n as int]);
        }
        out.push(v);
        n = n + 1;
    }
    out
}

/// Evaluate the layer-stacked network for the side to move. The dense widths
/// are those of the network.
pub fn nnue_evaluate(acc: &Accumulator, side_to_move: Color, net: &NnueNetwork, piece_count: u32) -> (r: i32)
    requires
        net.ok(),
    ensures
        r == network_value(*net, *acc, side_to_move, piece_count as int),
        -900_000 <= r <= 900_000,
{
    let bucket: usize = output_bucket(piece_count);
    let ghost g1 = l1_out(*net, acc.half(side_to_move), acc.half(side_to_move.other()), bucket as int);
    let l1 = first_layer(acc, side_to_move, net, bucket);
    let ghost g2 = l2_out(*net, g1, bucket as int);
    let l2 = second_layer(&l1, net, bucket, Ghost(g1));
    proof {
        lemma_row(bucket as int, net.l2_size as int, 0);
    }
    let sum: i64 = dense_screlu_sum(&l2, &net.l3_weights, bucket * net.l2_size, Ghost(g2));
    let raw: i64 = sum + net.l3_biases[bucket] as i64;
    let scaled: i64 = raw * 400;
    proof {
        assert(raw == l3_raw(*net, g2, bucket as int));
        assert(quot(raw * 400, 1032256) <= 900_000 && quot(raw * 400, 1032256) >= -900_000);
    }
    div_i64(scaled, 1032256) as i32
}

proof fn lemma_pair_sum_zero(acc: Seq<i16>, weights: Seq<i8>, offset: int, n: int)
    requires
        forall|k: int| offset <= k < offset + n ==> #[trigger] weights[k] == 0,
    ensures
        pair_sum(acc, weights, offset, n) == 0,
    decreases n,
{
    if n > 0 {
        lemma_pair_sum_zero(acc, weights, offset, n - 1);
        let x = crelu(acc[n - 1]) * crelu(acc[n - 1 + 512]);
        assert(weights[offset + n - 1] == 0);
        assert(x * 0 == 0);
    }
}

/// The weights of the first dense layer that one half of its inputs feeds: the
/// first or the second 512 of every neuron's 1024.
pub open spec fn half_is_zero(net: NnueNetwork, second: bool) -> bool {
    forall|k: int|
        0 <= k < net.l1_weights@.len() && (k % 1024 >= 512) == second ==> #[trigger] net.l1_weights@[k] == 0
}

proof fn lemma_zero_row(net: NnueNetwork, acc: Seq<i16>, second: bool, row: int)
    requires
        half_is_zero(net, second),
        0 <= row,
        row * 1024 + 1024 <= net.l1_weights@.len(),
    ensures
        pair_sum(acc, net.l1_weights@, row * 1024 + if second { 512int } else { 0 }, 512) == 0,
{
    let o = row * 1024 + if second { 512int } else { 0 };
    assert forall|k: int| o <= k < o + 512 implies #[trigger] net.l1_weights@[k] == 0 by {
        assert(k % 1024 == k - row * 1024);
    }
    lemma_pair_sum_zero(acc, net.l1_weights@, o, 512);
}

proof fn lemma_rows_fit(net: NnueNetwork, bucket: int, neuron: int)
    requires
        net.ok(),
        0 <= bucket < 8,
        0 <= neuron < net.l1_size,
    ensures
        0 <= bucket * net.l1_size + neuron,
        (bucket * net.l1_size + neuron) * 1024 + 1024 <= net.l1_weights@.len(),
{
    let s = net.l1_size as int;
    assert(0 <= bucket * s + neuron && (bucket * s + neuron) * 1024 + 1024 <= 8 * s * 1024) by (nonlinear_arith)
        requires
            0 <= bucket < 8,
            0 <= neuron < s,
    ;
}

/// Where the weights of the second half of the inputs are zero, the value for a
/// side depends only on the half of the accumulator that belongs to that side.
pub proof fn law_own_half_comes_first(net: NnueNetwork, a: Accumulator, b: Accumulator, side: Color, pieces: int)
    requires
        net.ok(),
        forall|k: int| 0 <= k < net.l1_weights@.len() && k % 1024 >= 512 ==> #[trigger] net.l1_weights@[k] == 0,
        side == Color::White ==> a.white@ == b.white@,
        side == Color::Black ==> a.black@ == b.black@,
    ensures
        network_value(net, a, side, pieces) == network_value(net, b, side, pieces),
{
    assert(half_is_zero(net, true));
    lemma_halves_matter(net, a.half(side), a.half(side.other()), b.half(side.other()), bucket_for(pieces), true);
}

/// Where the weights of the first half of the inputs are zero, the value for a
/// side depends only on the half of the accumulator that belongs to its
/// opponent.
pub proof fn law_other_half_comes_second(net: NnueNetwork, a: Accumulator, b: Accumulator, side: Color, pieces: int)
    requires
        net.ok(),
        forall|k: int| 0 <= k < net.l1_weights@.len() && k % 1024 < 512 ==> #[trigger] net.l1_weights@[k] == 0,
        side == Color::White ==> a.black@ == b.black@,
        side == Color::Black ==> a.white@ == b.white@,
    ensures
        network_value(net, a, side, pieces) == network_value(net, b, side, pieces),
{
    assert(half_is_zero(net, false));
    lemma_halves_matter(net, a.half(side.other()), a.half(side), b.half(side), bucket_for(pieces), false);
}

/// What is multiplied by zero does not matter.
pub proof fn lemma_halves_matter(net: NnueNetwork, kept: Seq<i16>, x: Seq<i16>, y: Seq<i16>, bucket: int, second: bool)
    requires
        net.ok(),
        0 <= bucket < 8,
        half_is_zero(net, second),
    ensures
        second ==> l1_out(net, kept, x, bucket) == l1_out(net, kept, y, bucket),
        !second ==> l1_out(net, x, kept, bucket) == l1_out(net, y, kept, bucket),
{
    assert forall|n: int| 0 <= n < net.l1_size implies (second ==> #[trigger] l1_raw(net, kept, x, bucket, n) == l1_raw(
        net,
        kept,
        y,
        bucket,
        n,
    )) && (!second ==> l1_raw(net, x, kept, bucket, n) == l1_raw(net, y, kept, bucket, n)) by {
        lemma_rows_fit(net, bucket, n);
        lemma_zero_row(net, x, second, bucket * net.l1_size + n);
        lemma_zero_row(net, y, second, bucket * net.l1_size + n);
    }
    if second {
        assert(l1_out(net, kept, x, bucket) =~= l1_out(net, kept, y, bucket));
    } else {
        assert forall|n: int| 0 <= n < net.l1_size implies #[trigger] l1_raw(net, x, kept, bucket, n) == l1_raw(
            net,
            y,
            kept,
            bucket,
            n,
        ) by {
            let same = l1_raw(net, kept, x, bucket, n);
        }
        assert(l1_out(net, x, kept, bucket) =~= l1_out(net, y, kept, bucket));
    }
}

/// The weights of the last layers change by the number of pieces: one set for
/// each four, from two pieces up, the last for thirty and more.
pub proof fn law_buckets_go_by_pieces(n: int)
    requires
        2 <= n <= 32,
    ensures
        0 <= bucket_for(n) <= 7,
        4 * bucket_for(n) + 2 <= n < 4 * bucket_for(n) + 6,
{
}

proof fn lemma_pair_sum_unchanged(acc: Seq<i16>, w: Seq<i8>, i: int, x: i8, offset: int, n: int)
    requires
        0 <= i < w.len(),
        0 <= offset,
        i >= offset + n || i < offset,
        offset + n <= w.len(),
    ensures
        pair_sum(acc, w.update(i, x), offset, n) == pair_sum(acc, w, offset, n),
    decreases n,
{
    if n > 0 {
        lemma_pair_sum_unchanged(acc, w, i, x, offset, n - 1);
    }
}

/// Each weight of the first layer acts on the product of two clipped inputs, its
/// own and the one 512 places on: a change of the weight changes the sum by as
/// many times that product.
pub proof fn law_first_layer_weights(acc: Seq<i16>, w: Seq<i8>, offset: int, n: int, k: int, x: i8)
    requires
        0 <= k < n <= 512,
        0 <= offset,
        offset + n <= w.len(),
    ensures
        ({
            let a = if acc[k] < 0 { 0 } else if acc[k] > 127 { 127 } else { acc[k] as int };
            let b = if acc[k + 512] < 0 { 0 } else if acc[k + 512] > 127 { 127 } else { acc[k + 512] as int };
            pair_sum(acc, w.update(offset + k, x), offset, n) - pair_sum(acc, w, offset, n) == a * b * (x - w[offset + k])
        }),
    decreases n,
{
    let a = crelu(acc[k]);
    let b = crelu(acc[k + 512]);
    if k == n - 1 {
        lemma_pair_sum_unchanged(acc, w, offset + k, x, offset, n - 1);
        let c = a * b;
        let old = w[offset + k] as int;
        assert(c * (x as int) - c * old == c * (x as int - old)) by (nonlinear_arith);
    } else {
        law_first_layer_weights(acc, w, offset, n - 1, k, x);
    }
}

proof fn lemma_dense_sum_unchanged(values: Seq<int>, w: Seq<i8>, i: int, x: i8, offset: int, n: int)
    requires
        0 <= i < w.len(),
        0 <= offset,
        i >= offset + n || i < offset,
        offset + n <= w.len(),
    ensures
        dense_sum(values, w.update(i, x), offset, n) == dense_sum(values, w, offset, n),
    decreases n,
{
    if n > 0 {
        lemma_dense_sum_unchanged(values, w, i, x, offset, n - 1);
    }
}

/// Each weight of a later layer acts on the square of its clipped input.
pub proof fn law_dense_weights(values: Seq<int>, w: Seq<i8>, offset: int, n: int, k: int, x: i8)
    requires
        0 <= k < n,
        0 <= offset,
        offset + n <= w.len(),
    ensures
        ({
            let a = if values[k] < 0 { 0 } else if values[k] > 127 { 127 } else { values[k] };
            dense_sum(values, w.update(offset + k, x), offset, n) - dense_sum(values, w, offset, n) == a * a * (x - w[offset
                + k])
        }),
    decreases n,
{
    let a = clamp(values[k], 0, 127);
    if k == n - 1 {
        lemma_dense_sum_unchanged(values, w, offset + k, x, offset, n - 1);
        let c = a * a;
        let old = w[offset + k] as int;
        assert(c * (x as int) - c * old == c * (x as int - old)) by (nonlinear_arith);
    } else {
        law_dense_weights(values, w, offset, n - 1, k, x);
    }
}

/// A neuron fires from nothing to 127, never less for more input.
pub proof fn law_activations(raw: int, more: int)
    requires
        raw <= more,
    ensures
        0 <= activation(raw) <= activation(more) <= 127,
        raw <= 0 ==> activation(raw) == 0,
        raw >= 127 * 8128 ==> activation(raw) == 127,
{
}

/// The value of a network grows with what its last layer says, a full unit of
/// which is 400 centipawns; nothing is worth nothing.
pub proof fn law_last_layer_decides(
    net: NnueNetwork,
    other: NnueNetwork,
    a: Accumulator,
    b: Accumulator,
    side: Color,
    pieces: int,
)
    ensures
        ({
            let k = bucket_for(pieces);
            let x = l3_raw(
                net,
                l2_out(net, l1_out(net, a.half(side), a.half(side.other()), k), k),
                k,
            );
            let y = l3_raw(
                other,
                l2_out(other, l1_out(other, b.half(side), b.half(side.other()), k), k),
                k,
            );
            &&& x <= y ==> network_value(net, a, side, pieces) <= network_value(other, b, side, pieces)
            &&& x == 0 ==> network_value(net, a, side, pieces) == 0
            &&& x == 1032256 ==> network_value(net, a, side, pieces) == 400
            &&& x == -1032256 ==> network_value(net, a, side, pieces) == -400
        }),
{
}

} // verus!
