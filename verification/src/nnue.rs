use vstd::prelude::*;

verus! {

/// Width of the hidden layer.
pub const HIDDEN_SIZE: usize = 128;
/// Number of input features: two colors, six pieces, 64 squares.
pub const FEATURE_COUNT: usize = 768;
/// Number of output buckets, chosen by the number of pieces on the board.
pub const NUM_OUTPUT_BUCKETS: usize = 8;
/// Evaluation scale.
pub const SCALE: i32 = 400;
/// Quantisation of the feature layer.
pub const QA: i32 = 255;
/// Quantisation of the output layer.
pub const QB: i32 = 64;

/// Rust's integer division, which rounds toward zero.
pub open spec fn div_trunc(a: int, b: int) -> int {
    if a >= 0 {
        a / b
    } else {
        -((-a) / b)
    }
}

/// Squared clipped ReLU: the input clamped to `0..=QA`, squared.
pub open spec fn spec_screlu(x: i16) -> int {
    let y = if x < 0 {
        0
    } else if x > 255 {
        255
    } else {
        x as int
    };
    y * y
}

/// Squared clipped ReLU of an accumulator entry.
pub fn screlu(x: i16) -> (r: i32)
    ensures
        r == spec_screlu(x),
        0 <= r <= 65025,
{
    let v = x as i32;
    let y = if v < 0 {
        0
    } else if v > 255 {
        255
    } else {
        v
    };
    assert(0 <= y * y <= 65025) by (nonlinear_arith)
        requires
            0 <= y <= 255,
    ;
    y * y
}

/// The output bucket for a number of pieces: `(count - 2) / 4` (saturating
/// at zero), at most 7.
pub open spec fn spec_output_bucket(piece_count: u32) -> int {
    let c = if piece_count >= 2 {
        piece_count - 2
    } else {
        0
    };
    if c / 4 < 7 {
        c / 4
    } else {
        7
    }
}

/// The output bucket for a number of pieces.
pub fn get_output_bucket(piece_count: u32) -> (r: usize)
    ensures
        r == spec_output_bucket(piece_count),
        r < 8,
{
    let b = piece_count.saturating_sub(2) / 4;
    if b < 7 {
        b as usize
    } else {
        7
    }
}

/// The hidden layer of one side, kept up to date as pieces come and go.
#[derive(Clone, Copy, Debug)]
pub struct Accumulator {
    pub vals: [i16; 128],
}

/// A quantised network with one hidden layer and eight output buckets.
pub struct Network {
    /// Feature weights, `HIDDEN_SIZE` values per feature, feature-major.
    feature_weights: Vec<i16>,
    /// Feature bias, `HIDDEN_SIZE` values.
    feature_bias: [i16; 128],
    /// Output weights, `2 * HIDDEN_SIZE` per bucket, bucket-major: the side
    /// to move's half first.
    output_weights: Vec<i16>,
    /// One output bias per bucket.
    output_bias: [i16; 8],
}

/// Size in bytes of the network's file image: the 64-byte-aligned feature
/// columns, the bias, the output weights and biases, padded to 64 bytes.
pub const NETWORK_BYTES: usize = 201024;

/// A little-endian 16-bit value at byte offset `at`.
pub open spec fn le_i16(b: Seq<u8>, at: int) -> i16 {
    (((b[at + 1] as u16) << 8u16) | (b[at] as u16)) as i16
}

/// Partial sums of the output layer: the first `k` of the 256 products of
/// clipped activations (own accumulator, then the other) and bucket weights.
pub open spec fn output_sum(us: Seq<i16>, them: Seq<i16>, w: Seq<i16>, start: int, k: int) -> int
    decreases k,
{
    if k <= 0 {
        0
    } else {
        let i = k - 1;
        let x = if i < 128 {
            us[i]
        } else {
            them[i - 128]
        };
        output_sum(us, them, w, start, k - 1) + spec_screlu(x) * (w[start + i] as int)
    }
}

/// Whether the evaluation's 32-bit arithmetic stays in range.
pub open spec fn evaluate_fits(us: Seq<i16>, them: Seq<i16>, w: Seq<i16>, bias: Seq<i16>, bucket: int) -> bool {
    let start = bucket * 256;
    &&& forall|k: int| 0 <= k <= 256 ==> i32::MIN <= #[trigger] output_sum(us, them, w, start, k) <= i32::MAX
    &&& i32::MIN <= div_trunc(output_sum(us, them, w, start, 256), 255) + bias[bucket] <= i32::MAX
    &&& i32::MIN <= (div_trunc(output_sum(us, them, w, start, 256), 255) + bias[bucket]) * 400 <= i32::MAX
}

/// The network's output for accumulators `us` and `them` in a bucket:
/// the output sum reduced by `QA`, plus the bucket bias, scaled by 400 and
/// reduced by `QA * QB`.
pub open spec fn network_output(us: Seq<i16>, them: Seq<i16>, w: Seq<i16>, bias: Seq<i16>, bucket: int) -> int {
    let start = bucket * 256;
    div_trunc((div_trunc(output_sum(us, them, w, start, 256), 255) + bias[bucket]) * 400, 16320)
}

impl Network {
    pub closed spec fn wf(&self) -> bool {
        &&& self.feature_weights@.len() == 768 * 128
        &&& self.output_weights@.len() == 8 * 256
    }

    pub closed spec fn spec_feature_weights(&self) -> Seq<i16> {
        self.feature_weights@
    }

    pub closed spec fn spec_feature_bias(&self) -> Seq<i16> {
        self.feature_bias@
    }

    pub closed spec fn spec_output_weights(&self) -> Seq<i16> {
        self.output_weights@
    }

    pub closed spec fn spec_output_bias(&self) -> Seq<i16> {
        self.output_bias@
    }

    /// Reads a network from its file image: `None` unless the image has
    /// exactly `NETWORK_BYTES` bytes; values are little-endian 16-bit.
    pub fn from_bytes(data: &[u8]) -> (r: Option<Network>)
        ensures
            r is Some <==> data@.len() == NETWORK_BYTES,
            r matches Some(n) ==> {
                &&& n.wf()
                &&& forall|i: int| 0 <= i < 768 * 128 ==> #[trigger] n.spec_feature_weights()[i] == le_i16(data@, 2 * i)
                &&& forall|i: int| 0 <= i < 128 ==> #[trigger] n.spec_feature_bias()[i] == le_i16(data@, 196608 + 2 * i)
                &&& forall|i: int| 0 <= i < 2048 ==> #[trigger] n.spec_output_weights()[i] == le_i16(data@, 196864 + 2 * i)
                &&& forall|i: int| 0 <= i < 8 ==> #[trigger] n.spec_output_bias()[i] == le_i16(data@, 200960 + 2 * i)
            },
    {
        if data.len() != NETWORK_BYTES {
            return None;
        }
        let mut feature_weights: Vec<i16> = Vec::new();
        let mut i: usize = 0;
        while i < 768 * 128
            invariant
                data@.len() == NETWORK_BYTES,
                i <= 768 * 128,
                feature_weights@.len() == i,
                forall|j: int| 0 <= j < i ==> #[trigger] feature_weights@[j] == le_i16(data@, 2 * j),
            decreases 768 * 128 - i,
        {
            feature_weights.push(read_i16(data, 2 * i));
            i = i + 1;
        }
        let mut feature_bias: [i16; 128] = [0i16; 128];
        let mut j: usize = 0;
        while j < 128
            invariant
                data@.len() == NETWORK_BYTES,
                j <= 128,
                forall|k: int| 0 <= k < j ==> #[trigger] feature_bias@[k] == le_i16(data@, 196608 + 2 * k),
            decreases 128 - j,
        {
            feature_bias[j] = read_i16(data, 196608 + 2 * j);
            j = j + 1;
        }
        let mut output_weights: Vec<i16> = Vec::new();
        let mut k: usize = 0;
        while k < 2048
            invariant
                data@.len() == NETWORK_BYTES,
                k <= 2048,
                output_weights@.len() == k,
                forall|t: int| 0 <= t < k ==> #[trigger] output_weights@[t] == le_i16(data@, 196864 + 2 * t),
            decreases 2048 - k,
        {
            output_weights.push(read_i16(data, 196864 + 2 * k));
            k = k + 1;
        }
        let mut output_bias: [i16; 8] = [0i16; 8];
        let mut t: usize = 0;
        while t < 8
            invariant
                data@.len() == NETWORK_BYTES,
                t <= 8,
                forall|u: int| 0 <= u < t ==> #[trigger] output_bias@[u] == le_i16(data@, 200960 + 2 * u),
            decreases 8 - t,
        {
            output_bias[t] = read_i16(data, 200960 + 2 * t);
            t = t + 1;
        }
        Some(Network { feature_weights, feature_bias, output_weights, output_bias })
    }

    /// The network's output from the hidden layers of the side to move
    /// (`us`) and of the other side (`them`), using the bucket for
    /// `piece_count` pieces.
    pub fn evaluate(&self, us: &Accumulator, them: &Accumulator, piece_count: u32) -> (r: i32)
        requires
            self.wf(),
            evaluate_fits(
                us.vals@,
                them.vals@,
                self.spec_output_weights(),
                self.spec_output_bias(),
                spec_output_bucket(piece_count),
            ),
        ensures
            r == network_output(
                us.vals@,
                them.vals@,
                self.spec_output_weights(),
                self.spec_output_bias(),
                spec_output_bucket(piece_count),
            ),
    {
        let bucket = get_output_bucket(piece_count);
        let start = bucket * 256;
        let mut output: i32 = 0;
        let mut i: usize = 0;
        while i < 256
            invariant
                i <= 256,
                start == bucket * 256,
                bucket < 8,
                self.wf(),
                evaluate_fits(us.vals@, them.vals@, self.output_weights@, self.output_bias@, bucket as int),
                output == output_sum(us.vals@, them.vals@, self.output_weights@, start as int, i as int),
            decreases 256 - i,
        {
            let x = if i < 128 {
                us.vals[i]
            } else {
                them.vals[i - 128]
            };
            let a = screlu(x);
            let w = self.output_weights[start + i] as i32;
            assert(-32768 <= w <= 32767);
            assert(-2130739200 <= a * w <= 2130674175) by (nonlinear_arith)
                requires
                    0 <= a <= 65025,
                    -32768 <= w <= 32767,
            ;
            assert(i32::MIN <= output_sum(us.vals@, them.vals@, self.output_weights@, start as int, i + 1) <= i32::MAX);
            output = output + a * w;
            i = i + 1;
        }
        output = output / 255;
        output = output + self.output_bias[bucket] as i32;
        output = output * 400;
        output = output / 16320;
        output
    }
}

impl Network {
    /// The network's output, or `None` where the 32-bit arithmetic of
    /// `evaluate` would leave its range.
    pub fn try_evaluate(&self, us: &Accumulator, them: &Accumulator, piece_count: u32) -> (r: Option<i32>)
        requires
            self.wf(),
        ensures
            r is Some <==> evaluate_fits(
                us.vals@,
                them.vals@,
                self.spec_output_weights(),
                self.spec_output_bias(),
                spec_output_bucket(piece_count),
            ),
            r matches Some(v) ==> v == network_output(
                us.vals@,
                them.vals@,
                self.spec_output_weights(),
                self.spec_output_bias(),
                spec_output_bucket(piece_count),
            ),
    {
        let bucket = get_output_bucket(piece_count);
        let start = bucket * 256;
        let ghost w = self.output_weights@;
        let mut sum: i64 = 0;
        let mut i: usize = 0;
        while i < 256
            invariant
                i <= 256,
                start == bucket * 256,
                bucket < 8,
                self.wf(),
                w == self.output_weights@,
                bucket as int == spec_output_bucket(piece_count),
                sum == output_sum(us.vals@, them.vals@, w, start as int, i as int),
                forall|k: int| 0 <= k <= i ==> i32::MIN <= #[trigger] output_sum(us.vals@, them.vals@, w, start as int, k) <= i32::MAX,
            decreases 256 - i,
        {
            let x = if i < 128 {
                us.vals[i]
            } else {
                them.vals[i - 128]
            };
            let a = screlu(x) as i64;
            let wt = self.output_weights[start + i] as i64;
            assert(-2130739200 <= a * wt <= 2130674175) by (nonlinear_arith)
                requires
                    0 <= a <= 65025,
                    -32768 <= wt <= 32767,
            ;
            let next = sum + a * wt;
            if next < i32::MIN as i64 || next > i32::MAX as i64 {
                assert(next == output_sum(us.vals@, them.vals@, w, start as int, i + 1));
                assert(!(i32::MIN <= output_sum(us.vals@, them.vals@, w, start as int, i + 1) <= i32::MAX));
                return None;
            }
            sum = next;
            i = i + 1;
        }
        let reduced = sum / 255;
        assert(reduced == div_trunc(sum as int, 255));
        let biased = reduced + self.output_bias[bucket] as i64;
        if biased < i32::MIN as i64 || biased > i32::MAX as i64 {
            return None;
        }
        let scaled = biased * 400;
        if scaled < i32::MIN as i64 || scaled > i32::MAX as i64 {
            return None;
        }
        let out = scaled / 16320;
        assert(out == div_trunc(scaled as int, 16320));
        Some(out as i32)
    }
}

impl Accumulator {
    /// Adds the weights of a feature, or answers `false` and leaves the
    /// accumulator unchanged where an entry would leave the 16-bit range.
    pub fn try_add_feature(&mut self, feature_idx: usize, net: &Network) -> (r: bool)
        requires
            net.wf(),
            feature_idx < 768,
        ensures
            r == feature_update_fits(old(self).vals@, net.spec_feature_weights(), feature_idx as int, 1),
            r ==> final(self).vals@ == Seq::new(
                128,
                |i: int| (old(self).vals@[i] + net.spec_feature_weights()[feature_idx * 128 + i]) as i16,
            ),
            !r ==> final(self).vals@ == old(self).vals@,
    {
        let mut i: usize = 0;
        while i < 128
            invariant
                i <= 128,
                net.wf(),
                feature_idx < 768,
                forall|j: int| 0 <= j < i ==> i16::MIN <= #[trigger] self.vals@[j] + 1 * net.spec_feature_weights()[feature_idx * 128 + j] <= i16::MAX,
            decreases 128 - i,
        {
            let v = self.vals[i] as i32 + net.feature_weights[feature_idx * 128 + i] as i32;
            if v < -32768 || v > 32767 {
                return false;
            }
            i = i + 1;
        }
        self.add_feature(feature_idx, net);
        true
    }
}

/// Reads a little-endian 16-bit value.
pub fn read_i16(data: &[u8], at: usize) -> (r: i16)
    requires
        at + 1 < data@.len(),
    ensures
        r == le_i16(data@, at as int),
{
    let lo = data[at] as u16;
    let hi = data[at + 1] as u16;
    ((hi << 8u16) | lo) as i16
}

/// Whether adding (or, with `sign` -1, subtracting) a feature column keeps
/// every 16-bit entry in range.
pub open spec fn feature_update_fits(vals: Seq<i16>, w: Seq<i16>, feature: int, sign: int) -> bool {
    forall|i: int| 0 <= i < 128 ==> i16::MIN <= #[trigger] vals[i] + sign * w[feature * 128 + i] <= i16::MAX
}

impl Accumulator {
    /// An accumulator holding the network's feature bias.
    pub fn new(net: &Network) -> (r: Self)
        ensures
            r.vals@ == net.spec_feature_bias(),
    {
        Accumulator { vals: net.feature_bias }
    }

    /// Adds the weights of a feature.
    pub fn add_feature(&mut self, feature_idx: usize, net: &Network)
        requires
            net.wf(),
            feature_idx < 768,
            feature_update_fits(old(self).vals@, net.spec_feature_weights(), feature_idx as int, 1),
        ensures
            final(self).vals@ == Seq::new(
                128,
                |i: int| (old(self).vals@[i] + net.spec_feature_weights()[feature_idx * 128 + i]) as i16,
            ),
    {
        let mut i: usize = 0;
        while i < 128
            invariant
                i <= 128,
                net.wf(),
                feature_idx < 768,
                feature_update_fits(old(self).vals@, net.spec_feature_weights(), feature_idx as int, 1),
                forall|j: int| 0 <= j < i ==> #[trigger] self.vals@[j] == (old(self).vals@[j] + net.spec_feature_weights()[feature_idx * 128 + j]) as i16,
                forall|j: int| i <= j < 128 ==> #[trigger] self.vals@[j] == old(self).vals@[j],
            decreases 128 - i,
        {
            let d = net.feature_weights[feature_idx * 128 + i];
            assert(i16::MIN <= old(self).vals@[i as int] + 1 * net.spec_feature_weights()[feature_idx * 128 + i] <= i16::MAX);
            self.vals[i] = self.vals[i] + d;
            i = i + 1;
        }
        assert(self.vals@ =~= Seq::new(
            128,
            |i: int| (old(self).vals@[i] + net.spec_feature_weights()[feature_idx * 128 + i]) as i16,
        ));
    }

    /// Removes the weights of a feature.
    pub fn remove_feature(&mut self, feature_idx: usize, net: &Network)
        requires
            net.wf(),
            feature_idx < 768,
            feature_update_fits(old(self).vals@, net.spec_feature_weights(), feature_idx as int, -1),
        ensures
            final(self).vals@ == Seq::new(
                128,
                |i: int| (old(self).vals@[i] - net.spec_feature_weights()[feature_idx * 128 + i]) as i16,
            ),
    {
        let mut i: usize = 0;
        while i < 128
            invariant
                i <= 128,
                net.wf(),
                feature_idx < 768,
                feature_update_fits(old(self).vals@, net.spec_feature_weights(), feature_idx as int, -1),
                forall|j: int| 0 <= j < i ==> #[trigger] self.vals@[j] == (old(self).vals@[j] - net.spec_feature_weights()[feature_idx * 128 + j]) as i16,
                forall|j: int| i <= j < 128 ==> #[trigger] self.vals@[j] == old(self).vals@[j],
            decreases 128 - i,
        {
            let d = net.feature_weights[feature_idx * 128 + i];
            assert(i16::MIN <= old(self).vals@[i as int] + (-1) * net.spec_feature_weights()[feature_idx * 128 + i] <= i16::MAX);
            self.vals[i] = self.vals[i] - d;
            i = i + 1;
        }
        assert(self.vals@ =~= Seq::new(
            128,
            |i: int| (old(self).vals@[i] - net.spec_feature_weights()[feature_idx * 128 + i]) as i16,
        ));
    }
}


/// The products up to `k` when the bucket's only non-zero weight is at
/// `start + q`: that weight's product once it is reached, zero before.
proof fn lemma_output_sum_single(us: Seq<i16>, them: Seq<i16>, w: Seq<i16>, start: int, q: int, x: i16, k: int)
    requires
        0 <= q < 256,
        0 <= k <= 256,
        forall|i: int| start <= i < start + 256 && i != start + q ==> #[trigger] w[i] == 0,
        q < 128 ==> x == us[q],
        q >= 128 ==> x == them[q - 128],
    ensures
        output_sum(us, them, w, start, k) == (if k > q {
            spec_screlu(x) * (w[start + q] as int)
        } else {
            0
        }),
    decreases k,
{
    if k > 0 {
        lemma_output_sum_single(us, them, w, start, q, x, k - 1);
        assert(k - 1 != q ==> w[start + (k - 1)] == 0);
    }
}

/// The side to move's hidden unit `j` meets the bucket's output weight `j`:
/// when that is the bucket's only non-zero weight and its bias is zero, the
/// output is the unit's clipped square times the weight, reduced by 255,
/// scaled by 400 and reduced by 16320, whatever the other side's units.
pub proof fn lemma_own_unit_weight(us: Seq<i16>, them: Seq<i16>, w: Seq<i16>, bias: Seq<i16>, bucket: int, j: int)
    requires
        0 <= j < 128,
        bias[bucket] == 0,
        forall|i: int| bucket * 256 <= i < bucket * 256 + 256 && i != bucket * 256 + j ==> #[trigger] w[i] == 0,
    ensures
        network_output(us, them, w, bias, bucket) == div_trunc(
            div_trunc(spec_screlu(us[j]) * (w[bucket * 256 + j] as int), 255) * 400,
            16320,
        ),
{
    lemma_output_sum_single(us, them, w, bucket * 256, j, us[j], 256);
}

/// The other side's hidden unit `j` meets the bucket's output weight
/// `128 + j`: when that is the bucket's only non-zero weight and its bias is
/// zero, the output is the unit's clipped square times the weight, reduced
/// by 255, scaled by 400 and reduced by 16320, whatever the side to move's
/// units.
pub proof fn lemma_other_unit_weight(us: Seq<i16>, them: Seq<i16>, w: Seq<i16>, bias: Seq<i16>, bucket: int, j: int)
    requires
        0 <= j < 128,
        bias[bucket] == 0,
        forall|i: int| bucket * 256 <= i < bucket * 256 + 256 && i != bucket * 256 + 128 + j ==> #[trigger] w[i] == 0,
    ensures
        network_output(us, them, w, bias, bucket) == div_trunc(
            div_trunc(spec_screlu(them[j]) * (w[bucket * 256 + 128 + j] as int), 255) * 400,
            16320,
        ),
{
    lemma_output_sum_single(us, them, w, bucket * 256, 128 + j, them[j], 256);
}

/// The clipped square: zero for negative inputs, the square from 0 to 255,
/// and 255 squared above.
pub proof fn lemma_screlu_values(x: i16)
    ensures
        x < 0 ==> spec_screlu(x) == 0,
        0 <= x <= 255 ==> spec_screlu(x) == x * x,
        x >= 255 ==> spec_screlu(x) == 65025,
{
}


/// Every four pieces beyond two move the output bucket up by one, up to the
/// last of the eight buckets.
pub proof fn lemma_output_bucket_range(piece_count: u32)
    ensures
        0 <= spec_output_bucket(piece_count) < 8,
        piece_count >= 2 && spec_output_bucket(piece_count) < 7 ==> 4 * spec_output_bucket(piece_count)
            <= piece_count - 2 < 4 * spec_output_bucket(piece_count) + 4,
        piece_count >= 30 ==> spec_output_bucket(piece_count) == 7,
        piece_count <= 5 ==> spec_output_bucket(piece_count) == 0,
        piece_count >= 2 && spec_output_bucket(piece_count) == 7 ==> piece_count >= 30,
{
}

/// With all of the bucket's output weights zero, the output is the bucket's
/// bias scaled by 400 and reduced by 16320, whatever the accumulators.
pub proof fn lemma_output_bias_only(us: Seq<i16>, them: Seq<i16>, w: Seq<i16>, bias: Seq<i16>, bucket: int)
    requires
        forall|i: int| bucket * 256 <= i < bucket * 256 + 256 ==> #[trigger] w[i] == 0,
    ensures
        network_output(us, them, w, bias, bucket) == div_trunc((bias[bucket] as int) * 400, 16320),
{
    lemma_output_sum_zero(us, them, w, bucket * 256, 256);
}

proof fn lemma_output_sum_zero(us: Seq<i16>, them: Seq<i16>, w: Seq<i16>, start: int, k: int)
    requires
        0 <= k <= 256,
        forall|i: int| start <= i < start + 256 ==> #[trigger] w[i] == 0,
    ensures
        output_sum(us, them, w, start, k) == 0,
    decreases k,
{
    if k > 0 {
        lemma_output_sum_zero(us, them, w, start, k - 1);
        assert(w[start + (k - 1)] == 0);
    }
}

} // verus!
