//! Ranking of the model's per-class probabilities.
//!
//! A probability is carried as the bit pattern of its IEEE-754 `float32`
//! value. For every pattern that is not a NaN, the order of the floats is the
//! order of `order_key`, under which `+0.0` and `-0.0` are equal, as they are
//! for `partial_cmp`.
use vstd::prelude::*;
use crate::error::PipelineError;

verus! {

/// Number of classes the model scores.
pub const CLASS_COUNT: usize = 1000;
/// Number of ranked entries reported for one image.
pub const RESULT_COUNT: usize = 5;

/// A class index paired with the probability the model gave it.
#[derive(Clone, Copy, Debug, PartialEq, Eq, Structural)]
pub struct InferenceResult {
    pub class_index: usize,
    /// Bit pattern of the `float32` probability.
    pub probability: u32,
}

/// The human-readable name of every class, indexed by class.
pub struct ClassTable {
    pub labels: Vec<String>,
}

impl ClassTable {
    /// One label for each class the model scores.
    pub open spec fn wf(&self) -> bool {
        self.labels@.len() == CLASS_COUNT
    }

    /// Builds the table from labels in class order; `None` unless there is
    /// exactly one label per class.
    pub fn new(labels: Vec<String>) -> (r: Option<ClassTable>)
        ensures
            r is Some <==> labels@.len() == CLASS_COUNT,
            r matches Some(t) ==> t.wf() && t.labels@ == labels@,
    {
        if labels.len() == CLASS_COUNT {
            Some(ClassTable { labels })
        } else {
            None
        }
    }
}

/// One line of the reported classification: its position (from 1), the class
/// with its probability, and the class's label.
#[derive(Clone, Debug)]
pub struct RankedEntry {
    pub rank: usize,
    pub result: InferenceResult,
    pub label: String,
}

/// The class and probability of each entry, in order.
pub open spec fn results_of(entries: Seq<RankedEntry>) -> Seq<InferenceResult> {
    entries.map_values(|e: RankedEntry| e.result)
}

/// The bits of a `float32` pattern other than the sign bit.
pub open spec fn magnitude(bits: u32) -> int {
    if bits >= 0x8000_0000 {
        bits - 0x8000_0000
    } else {
        bits as int
    }
}

/// Whether a `float32` pattern is a NaN: all exponent bits set and a non-zero
/// fraction.
pub open spec fn is_nan(bits: u32) -> bool {
    magnitude(bits) > 0x7f80_0000
}

/// A key whose integer order is the order of the (non-NaN) floats.
pub open spec fn order_key(bits: u32) -> int {
    if bits >= 0x8000_0000 {
        -magnitude(bits)
    } else {
        magnitude(bits)
    }
}

/// `a` comes before `b` in a ranking: its probability is higher, or it is
/// equal and `a` has the lower class index.
pub open spec fn ranks_before(a: InferenceResult, b: InferenceResult) -> bool {
    order_key(a.probability) > order_key(b.probability) || (order_key(a.probability)
        == order_key(b.probability) && a.class_index < b.class_index)
}

/// Class `i` paired with its probability.
pub open spec fn entry_of(probabilities: Seq<u32>, i: int) -> InferenceResult {
    InferenceResult { class_index: i as usize, probability: probabilities[i] }
}

/// Every entry of `r` is a class of `probabilities` with its own probability,
/// and the entries stand in strict ranking order.
pub open spec fn is_ranked_selection(probabilities: Seq<u32>, r: Seq<InferenceResult>) -> bool {
    &&& forall|k: int|
        0 <= k < r.len() ==> #[trigger] r[k].class_index < probabilities.len()
            && r[k].probability == probabilities[r[k].class_index as int]
    &&& forall|k: int, l: int| 0 <= k < l < r.len() ==> ranks_before(#[trigger] r[k], #[trigger] r[l])
}

/// Class `i` has an entry in `r`.
pub open spec fn lists_class(r: Seq<InferenceResult>, i: int) -> bool {
    exists|k: int| 0 <= k < r.len() && #[trigger] r[k].class_index == i
}

/// `r` is the complete ranking of `probabilities`: every class once, by
/// descending probability, ties in ascending class order.
pub open spec fn is_ranking(probabilities: Seq<u32>, r: Seq<InferenceResult>) -> bool {
    &&& is_ranked_selection(probabilities, r)
    &&& r.len() == probabilities.len()
    &&& forall|i: int| 0 <= i < probabilities.len() ==> #[trigger] lists_class(r, i)
}

/// `r` is the first `count` entries (all of them if there are fewer) of the
/// ranking of `probabilities`: ranked, and ahead of every class it leaves out.
pub open spec fn is_top_ranking(probabilities: Seq<u32>, r: Seq<InferenceResult>, count: int) -> bool {
    &&& is_ranked_selection(probabilities, r)
    &&& r.len() == if count < probabilities.len() {
        count
    } else {
        probabilities.len() as int
    }
    &&& forall|i: int|
        0 <= i < probabilities.len() && !lists_class(r, i) ==> forall|k: int|
            0 <= k < r.len() ==> ranks_before(#[trigger] r[k], #[trigger] entry_of(probabilities, i))
}

/// No pattern in `probabilities` is a NaN.
pub open spec fn all_numbers(probabilities: Seq<u32>) -> bool {
    forall|i: int| 0 <= i < probabilities.len() ==> !is_nan(#[trigger] probabilities[i])
}

/// The ordering key of a `float32` pattern.
pub fn order_key_of(bits: u32) -> (r: i64)
    ensures
        r == order_key(bits),
{
    if bits >= 0x8000_0000 {
        -((bits - 0x8000_0000) as i64)
    } else {
        bits as i64
    }
}

/// Whether a `float32` pattern is a NaN.
pub fn is_nan_bits(bits: u32) -> (r: bool)
    ensures
        r == is_nan(bits),
{
    let magnitude: u32 = if bits >= 0x8000_0000 {
        bits - 0x8000_0000
    } else {
        bits
    };
    magnitude > 0x7f80_0000
}

/// Pairs each probability with its class index and sorts the pairs by
/// descending probability; equal probabilities keep ascending class order.
pub fn sort_results(buffer: &[u32]) -> (r: Vec<InferenceResult>)
    requires
        all_numbers(buffer@),
    ensures
        is_ranking(buffer@, r@),
{
    let mut r: Vec<InferenceResult> = Vec::new();
    let mut m: usize = 0;
    while m < buffer.len()
        invariant
            m <= buffer@.len(),
            r@.len() == m,
            is_ranked_selection(buffer@, r@),
            forall|k: int| 0 <= k < r@.len() ==> #[trigger] r@[k].class_index < m,
            forall|i: int| 0 <= i < m ==> #[trigger] lists_class(r@, i),
        decreases buffer@.len() - m,
    {
        let e = InferenceResult { class_index: m, probability: buffer[m] };
        let key = order_key_of(buffer[m]);
        let mut pos: usize = 0;
        while pos < r.len() && order_key_of(r[pos].probability) >= key
            invariant
                pos <= r@.len(),
                key == order_key(e.probability),
                forall|k: int| 0 <= k < pos ==> order_key(#[trigger] r@[k].probability) >= key,
            decreases r@.len() - pos,
        {
            pos = pos + 1;
        }
        let ghost old_r = r@;
        r.insert(pos, e);
        proof {
            assert(r@ == old_r.insert(pos as int, e));
            assert forall|k: int, l: int| 0 <= k < l < r@.len() implies ranks_before(#[trigger] r@[k], #[trigger] r@[l]) by {
                if k < pos && l == pos {
                    assert(old_r[k].class_index < m);
                } else if k == pos && l > pos {
                    if pos + 1 < l {
                        assert(ranks_before(old_r[pos as int], old_r[l - 1]));
                    }
                } else if k < pos && l > pos {
                    assert(ranks_before(old_r[k], old_r[l - 1]));
                } else if k > pos {
                    assert(ranks_before(old_r[k - 1], old_r[l - 1]));
                }
            }
            assert forall|k: int| 0 <= k < r@.len() implies #[trigger] r@[k].class_index < m + 1
                && r@[k].class_index < buffer@.len() && r@[k].probability == buffer@[r@[k].class_index as int] by {
                if k < pos {
                    assert(old_r[k].class_index < m);
                } else if k > pos {
                    assert(old_r[k - 1].class_index < m);
                }
            }
            assert forall|i: int| 0 <= i < m + 1 implies #[trigger] lists_class(r@, i) by {
                if i == m {
                    assert(r@[pos as int].class_index == i);
                } else {
                    assert(lists_class(old_r, i));
                    let k0 = choose|k: int| 0 <= k < old_r.len() && #[trigger] old_r[k].class_index == i;
                    if k0 < pos {
                        assert(r@[k0].class_index == i);
                    } else {
                        assert(r@[k0 + 1].class_index == i);
                    }
                }
            }
        }
        m = m + 1;
    }
    r
}

/// The `count` highest-ranked entries of the probabilities, best first.
pub fn top_results(buffer: &[u32], count: usize) -> (r: Vec<InferenceResult>)
    requires
        all_numbers(buffer@),
    ensures
        is_top_ranking(buffer@, r@, count as int),
{
    let sorted = sort_results(buffer);
    let n: usize = if count < sorted.len() {
        count
    } else {
        sorted.len()
    };
    let mut r: Vec<InferenceResult> = Vec::new();
    let mut k: usize = 0;
    while k < n
        invariant
            n <= sorted@.len(),
            k <= n,
            r@ == sorted@.take(k as int),
        decreases n - k,
    {
        r.push(sorted[k]);
        k = k + 1;
        assert(r@ =~= sorted@.take(k as int));
    }
    proof {
        let probs = buffer@;
        assert forall|i: int| 0 <= i < probs.len() && !lists_class(r@, i) implies forall|k: int|
            0 <= k < r@.len() ==> ranks_before(#[trigger] r@[k], #[trigger] entry_of(probs, i)) by {
            assert(lists_class(sorted@, i));
            let m = choose|m: int| 0 <= m < sorted@.len() && #[trigger] sorted@[m].class_index == i;
            if m < n {
                assert(r@[m].class_index == i);
            }
            assert(sorted@[m] == entry_of(probs, i));
            assert forall|k: int| 0 <= k < r@.len() implies ranks_before(#[trigger] r@[k], #[trigger] entry_of(probs, i)) by {
                assert(ranks_before(sorted@[k], sorted@[m]));
            }
        }
    }
    r
}

/// Reduces the runtime's output to the reported classification: the
/// `RESULT_COUNT` best classes, ranked from 1, each with its label. The output
/// must hold one probability per class, none of them a NaN.
pub fn rank_output(probabilities: &[u32], classes: &ClassTable) -> (r: Result<
    Vec<RankedEntry>,
    PipelineError,
>)
    requires
        classes.wf(),
    ensures
        r == Err::<Vec<RankedEntry>, PipelineError>(PipelineError::OutputLength) <==> probabilities@.len()
            != CLASS_COUNT,
        r == Err::<Vec<RankedEntry>, PipelineError>(PipelineError::InvalidProbability) <==> (
        probabilities@.len() == CLASS_COUNT && !all_numbers(probabilities@)),
        r is Ok <==> probabilities@.len() == CLASS_COUNT && all_numbers(probabilities@),
        r matches Ok(entries) ==> {
            &&& is_top_ranking(probabilities@, results_of(entries@), RESULT_COUNT as int)
            &&& forall|k: int|
                0 <= k < entries@.len() ==> (#[trigger] entries@[k]).rank == k + 1
                    && entries@[k].result.class_index < CLASS_COUNT
                    && entries@[k].label@ == classes.labels@[entries@[k].result.class_index as int]@
        },
{
    if probabilities.len() != CLASS_COUNT {
        return Err(PipelineError::OutputLength);
    }
    let mut i: usize = 0;
    while i < probabilities.len()
        invariant
            probabilities@.len() == CLASS_COUNT,
            i <= probabilities@.len(),
            forall|j: int| 0 <= j < i ==> !is_nan(#[trigger] probabilities@[j]),
        decreases probabilities@.len() - i,
    {
        if is_nan_bits(probabilities[i]) {
            assert(!all_numbers(probabilities@));
            return Err(PipelineError::InvalidProbability);
        }
        i = i + 1;
    }
    let top = top_results(probabilities, RESULT_COUNT);
    let mut entries: Vec<RankedEntry> = Vec::new();
    let mut k: usize = 0;
    while k < top.len()
        invariant
            classes.wf(),
            probabilities@.len() == CLASS_COUNT,
            is_ranked_selection(probabilities@, top@),
            k <= top@.len(),
            entries@.len() == k,
            results_of(entries@) == top@.take(k as int),
            forall|m: int|
                0 <= m < entries@.len() ==> (#[trigger] entries@[m]).rank == m + 1
                    && entries@[m].result.class_index < CLASS_COUNT
                    && entries@[m].label@ == classes.labels@[entries@[m].result.class_index as int]@,
        decreases top@.len() - k,
    {
        let result = top[k];
        assert(result.class_index < probabilities@.len());
        let label = classes.labels[result.class_index].clone();
        let ghost before = entries@;
        entries.push(RankedEntry { rank: k + 1, result, label });
        proof {
            assert(results_of(entries@) =~= results_of(before).push(result));
            assert(top@.take(k + 1) =~= top@.take(k as int).push(result));
        }
        k = k + 1;
    }
    assert(results_of(entries@) =~= top@);
    Ok(entries)
}

/// The entries of `r` stand in strict ranking order.
spec fn strictly_ranked(r: Seq<InferenceResult>) -> bool {
    forall|k: int, l: int| 0 <= k < l < r.len() ==> ranks_before(#[trigger] r[k], #[trigger] r[l])
}

/// `e` is an entry of `r`.
spec fn has_entry(r: Seq<InferenceResult>, e: InferenceResult) -> bool {
    exists|m: int| 0 <= m < r.len() && #[trigger] r[m] == e
}

/// Every entry of `a` is also an entry of `b`.
spec fn included(a: Seq<InferenceResult>, b: Seq<InferenceResult>) -> bool {
    forall|k: int| 0 <= k < a.len() ==> has_entry(b, #[trigger] a[k])
}

proof fn lemma_tail_ranked(a: Seq<InferenceResult>)
    requires
        strictly_ranked(a),
        a.len() > 0,
    ensures
        strictly_ranked(a.drop_first()),
{
    let ta = a.drop_first();
    assert forall|k: int, l: int| 0 <= k < l < ta.len() implies ranks_before(#[trigger] ta[k], #[trigger] ta[l]) by {
        assert(ranks_before(a[k + 1], a[l + 1]));
    }
}

proof fn lemma_tail_included(a: Seq<InferenceResult>, b: Seq<InferenceResult>)
    requires
        strictly_ranked(a),
        included(a, b),
        a.len() > 0,
        b.len() > 0,
        a[0] == b[0],
    ensures
        included(a.drop_first(), b.drop_first()),
{
    let ta = a.drop_first();
    let tb = b.drop_first();
    assert forall|k: int| 0 <= k < ta.len() implies has_entry(tb, #[trigger] ta[k]) by {
        assert(a[k + 1] == ta[k]);
        assert(has_entry(b, a[k + 1]));
        let j = choose|j: int| 0 <= j < b.len() && #[trigger] b[j] == a[k + 1];
        assert(ranks_before(a[0], a[k + 1]));
        assert(tb[j - 1] == ta[k]);
    }
}

proof fn lemma_strictly_ranked_unique(a: Seq<InferenceResult>, b: Seq<InferenceResult>)
    requires
        strictly_ranked(a),
        strictly_ranked(b),
        a.len() == b.len(),
        included(a, b),
        included(b, a),
    ensures
        a == b,
    decreases a.len(),
{
    if a.len() == 0 {
        assert(a =~= b);
    } else {
        assert(has_entry(b, a[0]));
        assert(has_entry(a, b[0]));
        let m = choose|m: int| 0 <= m < b.len() && #[trigger] b[m] == a[0];
        let n = choose|n: int| 0 <= n < a.len() && #[trigger] a[n] == b[0];
        if m > 0 {
            assert(ranks_before(b[0], b[m]));
            if n > 0 {
                assert(ranks_before(a[0], a[n]));
            }
        }
        assert(a[0] == b[0]);
        lemma_tail_ranked(a);
        lemma_tail_ranked(b);
        lemma_tail_included(a, b);
        lemma_tail_included(b, a);
        lemma_strictly_ranked_unique(a.drop_first(), b.drop_first());
        assert(a =~= b) by {
            assert forall|k: int| 0 <= k < a.len() implies a[k] == b[k] by {
                if k > 0 {
                    assert(a[k] == a.drop_first()[k - 1]);
                    assert(b[k] == b.drop_first()[k - 1]);
                }
            }
        }
    }
}

/// A probability vector has exactly one ranking: two results that both list
/// every class once, by descending probability with ties in class order, are
/// identical. Ranking is therefore reproducible from run to run.
pub proof fn lemma_ranking_unique(
    probabilities: Seq<u32>,
    a: Seq<InferenceResult>,
    b: Seq<InferenceResult>,
)
    requires
        is_ranking(probabilities, a),
        is_ranking(probabilities, b),
    ensures
        a == b,
{
    assert forall|k: int| 0 <= k < a.len() implies has_entry(b, #[trigger] a[k]) by {
        let i = a[k].class_index as int;
        assert(lists_class(b, i));
        let m = choose|m: int| 0 <= m < b.len() && #[trigger] b[m].class_index == i;
        assert(b[m] == a[k]);
    }
    assert forall|k: int| 0 <= k < b.len() implies has_entry(a, #[trigger] b[k]) by {
        let i = b[k].class_index as int;
        assert(lists_class(a, i));
        let m = choose|m: int| 0 <= m < a.len() && #[trigger] a[m].class_index == i;
        assert(a[m] == b[k]);
    }
    assert(included(a, b));
    assert(included(b, a));
    lemma_strictly_ranked_unique(a, b);
}

proof fn lemma_top_entry_matches(
    probabilities: Seq<u32>,
    full: Seq<InferenceResult>,
    top: Seq<InferenceResult>,
    count: int,
    j: int,
)
    requires
        is_ranking(probabilities, full),
        is_top_ranking(probabilities, top, count),
        0 <= j < top.len(),
        forall|q: int| 0 <= q < j ==> top[q] == #[trigger] full[q],
    ensures
        top[j] == full[j],
{
    let i = top[j].class_index as int;
    assert(lists_class(full, i));
    let m = choose|m: int| 0 <= m < full.len() && #[trigger] full[m].class_index == i;
    assert(full[m] == top[j]);
    if m < j {
        assert(top[m] == full[m]);
        assert(ranks_before(top[m], top[j]));
    } else if m > j {
        let c = full[j].class_index as int;
        assert(ranks_before(full[j], full[m]));
        if lists_class(top, c) {
            let t = choose|t: int| 0 <= t < top.len() && #[trigger] top[t].class_index == c;
            assert(top[t] == full[j]);
            if t < j {
                assert(top[t] == full[t]);
                assert(ranks_before(full[t], full[j]));
            } else if t > j {
                assert(ranks_before(top[j], top[t]));
            }
        } else {
            assert(full[j] == entry_of(probabilities, c));
            assert(ranks_before(top[j], entry_of(probabilities, c)));
        }
    }
}

proof fn lemma_top_prefix_upto(
    probabilities: Seq<u32>,
    full: Seq<InferenceResult>,
    top: Seq<InferenceResult>,
    count: int,
    j: int,
)
    requires
        is_ranking(probabilities, full),
        is_top_ranking(probabilities, top, count),
        0 <= j <= top.len(),
    ensures
        forall|q: int| 0 <= q < j ==> top[q] == #[trigger] full[q],
    decreases j,
{
    if j > 0 {
        lemma_top_prefix_upto(probabilities, full, top, count, j - 1);
        lemma_top_entry_matches(probabilities, full, top, count, j - 1);
    }
}

/// The top `count` entries are the first `count` entries of the complete
/// ranking (all of it when there are fewer classes).
pub proof fn lemma_top_is_ranking_prefix(
    probabilities: Seq<u32>,
    full: Seq<InferenceResult>,
    top: Seq<InferenceResult>,
    count: int,
)
    requires
        is_ranking(probabilities, full),
        is_top_ranking(probabilities, top, count),
    ensures
        top == full.take(top.len() as int),
        top.len() == if count < probabilities.len() {
            count
        } else {
            probabilities.len() as int
        },
{
    lemma_top_prefix_upto(probabilities, full, top, count, top.len() as int);
    assert(top =~= full.take(top.len() as int));
}

} // verus!
