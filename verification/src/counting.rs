//! Operation counting for theoretical cost analysis.
//!
//! An [`OpCounts`] value records how many FFTs, MSMs, batch inversions,
//! pairings and G2 scalar multiplications a protocol phase performs.  The
//! counter that the protocol functions write to is an `Option<OpCounts>`:
//! `None` means that counting is switched off, and every `record_*` call is
//! then a no-op.  The caller owns that counter and hands it to the protocol
//! functions by `&mut`.
use vstd::prelude::*;

verus! {

/// One costed operation.
#[derive(Clone, Copy, PartialEq, Eq, Debug)]
pub enum Op {
    /// A forward FFT over a domain of the given size.
    Fft(usize),
    /// An inverse FFT over a domain of the given size.
    Ifft(usize),
    /// A G1 multi-scalar multiplication over the given number of points.
    MsmG1(usize),
    /// A batch inversion of the given number of elements.
    BatchInv(usize),
    /// One field inversion outside a batch.
    FieldInv,
    /// One full pairing.
    Pairing,
    /// One G2 scalar multiplication.
    G2ScalarMul,
}

/// Recorded operation counts for one protocol phase.
///
/// Each list holds `(size, count)` pairs: `count` operations of the given
/// `size` were recorded in a row.  Consecutive operations of the same size
/// share one entry; sizes are kept in the order they first occurred.
#[derive(Debug, Clone)]
pub struct OpCounts {
    /// Forward FFTs: (domain size, count).
    pub ffts: Vec<(usize, usize)>,
    /// Inverse FFTs: (domain size, count).
    pub iffts: Vec<(usize, usize)>,
    /// G1 MSMs: (number of points, count).
    pub msm_g1: Vec<(usize, usize)>,
    /// G2 scalar multiplications.
    pub g2_scalarmul: usize,
    /// Full pairings (Miller loop + final exponentiation).
    pub pairings: usize,
    /// Batch inversions: (number of elements inverted, count).
    pub batch_inv: Vec<(usize, usize)>,
    /// Individual field inversions (outside a batch).
    pub field_inv: usize,
}

impl Default for OpCounts {
    /// No operation recorded.
    fn default() -> (r: OpCounts)
        ensures
            r@ == empty_counts(),
    {
        OpCounts::new()
    }
}

/// The mathematical content of an [`OpCounts`].
pub struct OpCountsView {
    pub ffts: Seq<(usize, usize)>,
    pub iffts: Seq<(usize, usize)>,
    pub msm_g1: Seq<(usize, usize)>,
    pub g2_scalarmul: nat,
    pub pairings: nat,
    pub batch_inv: Seq<(usize, usize)>,
    pub field_inv: nat,
}

impl View for OpCounts {
    type V = OpCountsView;

    open spec fn view(&self) -> OpCountsView {
        OpCountsView {
            ffts: self.ffts@,
            iffts: self.iffts@,
            msm_g1: self.msm_g1@,
            g2_scalarmul: self.g2_scalarmul as nat,
            pairings: self.pairings as nat,
            batch_inv: self.batch_inv@,
            field_inv: self.field_inv as nat,
        }
    }
}

/// Sum of the counts of a `(size, count)` list.
pub open spec fn total_count(v: Seq<(usize, usize)>) -> nat
    decreases v.len(),
{
    if v.len() == 0 {
        0
    } else {
        total_count(v.drop_last()) + v.last().1 as nat
    }
}

/// The list after one more operation of the given size: the last entry grows
/// by one if it has that size, otherwise a new entry `(size, 1)` is appended.
pub open spec fn accumulated(v: Seq<(usize, usize)>, size: usize) -> Seq<(usize, usize)> {
    if v.len() > 0 && v.last().0 == size {
        v.update(v.len() - 1, (size, (v.last().1 + 1) as usize))
    } else {
        v.push((size, 1))
    }
}

/// Whether one more operation of the given size fits in the list's counters.
pub open spec fn has_room(v: Seq<(usize, usize)>, size: usize) -> bool {
    v.len() > 0 && v.last().0 == size ==> v.last().1 < usize::MAX
}

/// Whether the counts can take one more operation `op` without overflow.
pub open spec fn room_for(c: OpCountsView, op: Op) -> bool {
    match op {
        Op::Fft(s) => has_room(c.ffts, s),
        Op::Ifft(s) => has_room(c.iffts, s),
        Op::MsmG1(s) => has_room(c.msm_g1, s),
        Op::BatchInv(s) => has_room(c.batch_inv, s),
        Op::FieldInv => c.field_inv < usize::MAX,
        Op::Pairing => c.pairings < usize::MAX,
        Op::G2ScalarMul => c.g2_scalarmul < usize::MAX,
    }
}

/// The counts after recording one operation `op`.
pub open spec fn recorded(c: OpCountsView, op: Op) -> OpCountsView {
    match op {
        Op::Fft(s) => OpCountsView { ffts: accumulated(c.ffts, s), ..c },
        Op::Ifft(s) => OpCountsView { iffts: accumulated(c.iffts, s), ..c },
        Op::MsmG1(s) => OpCountsView { msm_g1: accumulated(c.msm_g1, s), ..c },
        Op::BatchInv(s) => OpCountsView { batch_inv: accumulated(c.batch_inv, s), ..c },
        Op::FieldInv => OpCountsView { field_inv: c.field_inv + 1, ..c },
        Op::Pairing => OpCountsView { pairings: c.pairings + 1, ..c },
        Op::G2ScalarMul => OpCountsView { g2_scalarmul: c.g2_scalarmul + 1, ..c },
    }
}

/// The state of an optional counter after one `record_*` call: nothing
/// happens when counting is off, or when the count has reached `usize::MAX`.
pub open spec fn counter_after(c: Option<OpCountsView>, op: Op) -> Option<OpCountsView> {
    match c {
        None => None,
        Some(v) => if room_for(v, op) {
            Some(recorded(v, op))
        } else {
            Some(v)
        },
    }
}

/// The state of an optional counter after recording each of `ops` in order.
pub open spec fn counter_after_all(c: Option<OpCountsView>, ops: Seq<Op>) -> Option<OpCountsView>
    decreases ops.len(),
{
    if ops.len() == 0 {
        c
    } else {
        counter_after(counter_after_all(c, ops.drop_last()), ops.last())
    }
}

/// Recording `ops` and then `op` is recording `ops.push(op)`.
pub proof fn lemma_after_all_push(c: Option<OpCountsView>, ops: Seq<Op>, op: Op)
    ensures
        counter_after_all(c, ops.push(op)) == counter_after(counter_after_all(c, ops), op),
{
    assert(ops.push(op).drop_last() =~= ops);
}

/// Recording `a` and then `b` is recording `a + b`.
pub proof fn lemma_after_all_concat(c: Option<OpCountsView>, a: Seq<Op>, b: Seq<Op>)
    ensures
        counter_after_all(c, a + b) == counter_after_all(counter_after_all(c, a), b),
    decreases b.len(),
{
    if b.len() == 0 {
        assert(a + b =~= a);
    } else {
        lemma_after_all_concat(c, a, b.drop_last());
        assert((a + b).drop_last() =~= a + b.drop_last());
        assert((a + b).last() == b.last());
    }
}

/// Operations other than inverse FFTs leave the inverse-FFT counts as they
/// are (and an active counter active).
pub proof fn lemma_non_ifft_keeps_iffts(v: OpCountsView, ops: Seq<Op>)
    requires
        forall|i: int| 0 <= i < ops.len() ==> !(#[trigger] ops[i] is Ifft),
    ensures
        counter_after_all(Some(v), ops) is Some,
        counter_after_all(Some(v), ops).unwrap().iffts == v.iffts,
    decreases ops.len(),
{
    if ops.len() > 0 {
        let init = ops.drop_last();
        assert forall|i: int| 0 <= i < init.len() implies !(#[trigger] init[i] is Ifft) by {
            assert(init[i] == ops[i]);
        }
        lemma_non_ifft_keeps_iffts(v, init);
        assert(!(ops[ops.len() - 1] is Ifft));
    }
}

/// `k` inverse FFTs of the size of the last entry add `k` to its count.
pub proof fn lemma_repeated_ifft(v: OpCountsView, s: usize, k: nat)
    requires
        v.iffts.len() > 0,
        v.iffts.last().0 == s,
        v.iffts.last().1 + k <= usize::MAX,
    ensures
        counter_after_all(Some(v), Seq::new(k, |j: int| Op::Ifft(s))) == Some(
            OpCountsView {
                iffts: v.iffts.update(
                    v.iffts.len() - 1,
                    (s, (v.iffts.last().1 + k) as usize),
                ),
                ..v
            },
        ),
    decreases k,
{
    let ops = Seq::new(k, |j: int| Op::Ifft(s));
    if k == 0 {
        assert(v.iffts.update(v.iffts.len() - 1, (s, (v.iffts.last().1 + k) as usize)) =~= v.iffts);
    } else {
        assert(ops.drop_last() =~= Seq::new((k - 1) as nat, |j: int| Op::Ifft(s)));
        lemma_repeated_ifft(v, s, (k - 1) as nat);
        let w = v.iffts.update(v.iffts.len() - 1, (s, (v.iffts.last().1 + k - 1) as usize));
        assert(w.last() == (s, (v.iffts.last().1 + k - 1) as usize));
        assert(w.update(w.len() - 1, (s, (w.last().1 + 1) as usize)) =~= v.iffts.update(
            v.iffts.len() - 1,
            (s, (v.iffts.last().1 + k) as usize),
        ));
    }
}

/// Operations other than forward FFTs leave the FFT counts as they are (and
/// an active counter active).
pub proof fn lemma_non_fft_keeps_ffts(v: OpCountsView, ops: Seq<Op>)
    requires
        forall|i: int| 0 <= i < ops.len() ==> !(#[trigger] ops[i] is Fft),
    ensures
        counter_after_all(Some(v), ops) is Some,
        counter_after_all(Some(v), ops).unwrap().ffts == v.ffts,
    decreases ops.len(),
{
    if ops.len() > 0 {
        let init = ops.drop_last();
        assert forall|i: int| 0 <= i < init.len() implies !(#[trigger] init[i] is Fft) by {
            assert(init[i] == ops[i]);
        }
        lemma_non_fft_keeps_ffts(v, init);
        assert(!(ops[ops.len() - 1] is Fft));
    }
}

/// `k` forward FFTs of the size of the last entry add `k` to its count.
pub proof fn lemma_repeated_fft(v: OpCountsView, s: usize, k: nat)
    requires
        v.ffts.len() > 0,
        v.ffts.last().0 == s,
        v.ffts.last().1 + k <= usize::MAX,
    ensures
        counter_after_all(Some(v), Seq::new(k, |j: int| Op::Fft(s))) is Some,
        counter_after_all(Some(v), Seq::new(k, |j: int| Op::Fft(s))).unwrap().ffts == v.ffts.update(
            v.ffts.len() - 1,
            (s, (v.ffts.last().1 + k) as usize),
        ),
    decreases k,
{
    let ops = Seq::new(k, |j: int| Op::Fft(s));
    if k == 0 {
        assert(v.ffts.update(v.ffts.len() - 1, (s, (v.ffts.last().1 + k) as usize)) =~= v.ffts);
    } else {
        assert(ops.drop_last() =~= Seq::new((k - 1) as nat, |j: int| Op::Fft(s)));
        lemma_repeated_fft(v, s, (k - 1) as nat);
        let w = v.ffts.update(v.ffts.len() - 1, (s, (v.ffts.last().1 + k - 1) as usize));
        assert(w.last() == (s, (v.ffts.last().1 + k - 1) as usize));
        assert(w.update(w.len() - 1, (s, (w.last().1 + 1) as usize)) =~= v.ffts.update(
            v.ffts.len() - 1,
            (s, (v.ffts.last().1 + k) as usize),
        ));
    }
}

/// With counting off, recording has no effect: the counter stays `None`
/// whatever operations are recorded.
pub proof fn law_disabled_counter_records_nothing(ops: Seq<Op>)
    ensures
        counter_after_all(None, ops) == None::<OpCountsView>,
    decreases ops.len(),
{
    if ops.len() > 0 {
        law_disabled_counter_records_nothing(ops.drop_last());
    }
}

/// A call on a counter: [`reset`], [`take`], or one of the `record_*`
/// functions.
pub enum CounterCall {
    Reset,
    Take,
    Record(Op),
}

/// The counter after one call: [`reset`] switches counting on with nothing
/// recorded, [`take`] switches it off, a record is [`counter_after`].
pub open spec fn counter_after_call(c: Option<OpCountsView>, call: CounterCall) -> Option<
    OpCountsView,
> {
    match call {
        CounterCall::Reset => Some(empty_counts()),
        CounterCall::Take => None,
        CounterCall::Record(op) => counter_after(c, op),
    }
}

/// The counter after each of `calls` in order.
pub open spec fn counter_after_calls(c: Option<OpCountsView>, calls: Seq<CounterCall>) -> Option<
    OpCountsView,
>
    decreases calls.len(),
{
    if calls.len() == 0 {
        c
    } else {
        counter_after_call(counter_after_calls(c, calls.drop_last()), calls.last())
    }
}

/// Some call of `calls` is a reset that no later take follows.
pub open spec fn reset_not_taken(calls: Seq<CounterCall>) -> bool {
    exists|i: int|
        0 <= i < calls.len() && (#[trigger] calls[i]) is Reset && forall|j: int|
            i < j < calls.len() ==> !(#[trigger] calls[j] is Take)
}

/// Starting with counting off, counting is on ([`is_active`] is true) after
/// a sequence of calls exactly when one of them was a reset and no take
/// came after the last reset.
pub proof fn law_active_iff_reset_not_taken(calls: Seq<CounterCall>)
    ensures
        counter_after_calls(None, calls) is Some <==> reset_not_taken(calls),
    decreases calls.len(),
{
    if calls.len() > 0 {
        let prev = calls.drop_last();
        let n = calls.len() - 1;
        law_active_iff_reset_not_taken(prev);
        match calls.last() {
            CounterCall::Reset => {
                assert(calls[n] is Reset);
            },
            CounterCall::Take => {
                if reset_not_taken(calls) {
                    let i = choose|i: int|
                        0 <= i < calls.len() && (#[trigger] calls[i]) is Reset && forall|j: int|
                            i < j < calls.len() ==> !(#[trigger] calls[j] is Take);
                    assert(calls[n] is Take);
                    assert(false);
                }
            },
            CounterCall::Record(op) => {
                if reset_not_taken(calls) {
                    let i = choose|i: int|
                        0 <= i < calls.len() && (#[trigger] calls[i]) is Reset && forall|j: int|
                            i < j < calls.len() ==> !(#[trigger] calls[j] is Take);
                    assert(i < n);
                    assert(prev[i] == calls[i]);
                    assert forall|j: int| i < j < prev.len() implies !(#[trigger] prev[j] is Take) by {
                        assert(prev[j] == calls[j]);
                    }
                }
                if reset_not_taken(prev) {
                    let i = choose|i: int|
                        0 <= i < prev.len() && (#[trigger] prev[i]) is Reset && forall|j: int|
                            i < j < prev.len() ==> !(#[trigger] prev[j] is Take);
                    assert(calls[i] == prev[i]);
                    assert forall|j: int| i < j < calls.len() implies !(#[trigger] calls[j] is Take) by {
                        if j < n {
                            assert(calls[j] == prev[j]);
                        }
                    }
                }
            },
        }
    }
}

/// Once counting is switched on, every recorded operation that the counts
/// have room for adds one to the total count of its kind, and the other
/// kinds stay as they were.
pub proof fn law_record_adds_one(c: OpCountsView, op: Op)
    requires
        room_for(c, op),
    ensures
        ({
            let d = recorded(c, op);
            &&& total_count(d.ffts) == total_count(c.ffts) + (if op is Fft { 1int } else { 0 })
            &&& total_count(d.iffts) == total_count(c.iffts) + (if op is Ifft { 1int } else { 0 })
            &&& total_count(d.msm_g1) == total_count(c.msm_g1) + (if op is MsmG1 { 1int } else { 0 })
            &&& total_count(d.batch_inv) == total_count(c.batch_inv) + (if op is BatchInv {
                1int
            } else {
                0
            })
            &&& d.field_inv == c.field_inv + (if op is FieldInv { 1int } else { 0 })
            &&& d.pairings == c.pairings + (if op is Pairing { 1int } else { 0 })
            &&& d.g2_scalarmul == c.g2_scalarmul + (if op is G2ScalarMul { 1int } else { 0 })
        }),
{
    match op {
        Op::Fft(s) => lemma_accumulated_total(c.ffts, s),
        Op::Ifft(s) => lemma_accumulated_total(c.iffts, s),
        Op::MsmG1(s) => lemma_accumulated_total(c.msm_g1, s),
        Op::BatchInv(s) => lemma_accumulated_total(c.batch_inv, s),
        _ => {},
    }
}

/// The view of an optional counter.
pub open spec fn counter_view(c: Option<OpCounts>) -> Option<OpCountsView> {
    match c {
        None => None,
        Some(v) => Some(v@),
    }
}

/// The counts of a freshly activated counter.
pub open spec fn empty_counts() -> OpCountsView {
    OpCountsView {
        ffts: Seq::empty(),
        iffts: Seq::empty(),
        msm_g1: Seq::empty(),
        g2_scalarmul: 0,
        pairings: 0,
        batch_inv: Seq::empty(),
        field_inv: 0,
    }
}

/// Recording one more operation of some size adds exactly one to the total
/// count of that list.
pub proof fn lemma_accumulated_total(v: Seq<(usize, usize)>, size: usize)
    requires
        has_room(v, size),
    ensures
        total_count(accumulated(v, size)) == total_count(v) + 1,
{
    let a = accumulated(v, size);
    if v.len() > 0 && v.last().0 == size {
        assert(a.drop_last() =~= v.drop_last());
    } else {
        assert(a.drop_last() =~= v);
    }
}

/// Add one occurrence of `size` to the accumulator, merging with the last
/// entry if it has the same size (so repeated same-size calls are grouped).
fn accumulate(v: &mut Vec<(usize, usize)>, size: usize)
    requires
        has_room(old(v)@, size),
    ensures
        final(v)@ == accumulated(old(v)@, size),
{
    let len = v.len();
    if len > 0 && v[len - 1].0 == size {
        let c = v[len - 1].1;
        v.set(len - 1, (size, c + 1));
        return;
    }
    v.push((size, 1));
}

/// Sums the counts of a `(size, count)` list.
fn sum_counts(v: &Vec<(usize, usize)>) -> (r: usize)
    requires
        total_count(v@) <= usize::MAX,
    ensures
        r == total_count(v@),
{
    let mut s: usize = 0;
    let mut i: usize = 0;
    while i < v.len()
        invariant
            i <= v.len(),
            s == total_count(v@.subrange(0, i as int)),
            total_count(v@) <= usize::MAX,
        decreases v.len() - i,
    {
        proof {
            lemma_total_count_prefix_le(v@, i as int + 1);
            assert(v@.subrange(0, i as int + 1).drop_last() =~= v@.subrange(0, i as int));
        }
        s = s + v[i].1;
        i = i + 1;
    }
    assert(v@.subrange(0, v.len() as int) =~= v@);
    s
}

/// The total count of a `(size, count)` list, or `None` when it exceeds
/// `usize::MAX`.
pub fn checked_total(v: &Vec<(usize, usize)>) -> (r: Option<usize>)
    ensures
        match r {
            Some(t) => t == total_count(v@),
            None => total_count(v@) > usize::MAX,
        },
{
    let mut s: usize = 0;
    let mut i: usize = 0;
    while i < v.len()
        invariant
            i <= v.len(),
            s == total_count(v@.subrange(0, i as int)),
        decreases v.len() - i,
    {
        proof {
            assert(v@.subrange(0, i as int + 1).drop_last() =~= v@.subrange(0, i as int));
        }
        match s.checked_add(v[i].1) {
            Some(t) => {
                s = t;
            },
            None => {
                proof {
                    lemma_total_count_prefix_le(v@, i as int + 1);
                }
                return None;
            },
        }
        i = i + 1;
    }
    assert(v@.subrange(0, v.len() as int) =~= v@);
    Some(s)
}

/// The total count of a prefix is at most the total count of the list.
pub proof fn lemma_total_count_prefix_le(v: Seq<(usize, usize)>, k: int)
    requires
        0 <= k <= v.len(),
    ensures
        total_count(v.subrange(0, k)) <= total_count(v),
    decreases v.len() - k,
{
    if k < v.len() {
        lemma_total_count_prefix_le(v, k + 1);
        assert(v.subrange(0, k + 1).drop_last() =~= v.subrange(0, k));
    } else {
        assert(v.subrange(0, k) =~= v);
    }
}

impl OpCounts {
    /// A counter with nothing recorded.
    pub fn new() -> (r: OpCounts)
        ensures
            r@ == empty_counts(),
    {
        OpCounts {
            ffts: Vec::new(),
            iffts: Vec::new(),
            msm_g1: Vec::new(),
            g2_scalarmul: 0,
            pairings: 0,
            batch_inv: Vec::new(),
            field_inv: 0,
        }
    }

    /// Records one forward FFT over a domain of `size` elements.
    pub fn record_fft(&mut self, size: usize)
        requires
            room_for(old(self)@, Op::Fft(size)),
        ensures
            final(self)@ == recorded(old(self)@, Op::Fft(size)),
    {
        accumulate(&mut self.ffts, size);
    }

    /// Records one inverse FFT over a domain of `size` elements.
    pub fn record_ifft(&mut self, size: usize)
        requires
            room_for(old(self)@, Op::Ifft(size)),
        ensures
            final(self)@ == recorded(old(self)@, Op::Ifft(size)),
    {
        accumulate(&mut self.iffts, size);
    }

    /// Records one G1 MSM over `n_points` points.
    pub fn record_msm_g1(&mut self, n_points: usize)
        requires
            room_for(old(self)@, Op::MsmG1(n_points)),
        ensures
            final(self)@ == recorded(old(self)@, Op::MsmG1(n_points)),
    {
        accumulate(&mut self.msm_g1, n_points);
    }

    /// Records one batch inversion of `n_elems` elements.
    pub fn record_batch_inv(&mut self, n_elems: usize)
        requires
            room_for(old(self)@, Op::BatchInv(n_elems)),
        ensures
            final(self)@ == recorded(old(self)@, Op::BatchInv(n_elems)),
    {
        accumulate(&mut self.batch_inv, n_elems);
    }

    /// Records one field inversion.
    pub fn record_field_inv(&mut self)
        requires
            room_for(old(self)@, Op::FieldInv),
        ensures
            final(self)@ == recorded(old(self)@, Op::FieldInv),
    {
        self.field_inv = self.field_inv + 1;
    }

    /// Records one pairing.
    pub fn record_pairing(&mut self)
        requires
            room_for(old(self)@, Op::Pairing),
        ensures
            final(self)@ == recorded(old(self)@, Op::Pairing),
    {
        self.pairings = self.pairings + 1;
    }

    /// Records one G2 scalar multiplication.
    pub fn record_g2_scalarmul(&mut self)
        requires
            room_for(old(self)@, Op::G2ScalarMul),
        ensures
            final(self)@ == recorded(old(self)@, Op::G2ScalarMul),
    {
        self.g2_scalarmul = self.g2_scalarmul + 1;
    }

    /// Records one operation of any kind.
    pub fn record(&mut self, op: Op)
        requires
            room_for(old(self)@, op),
        ensures
            final(self)@ == recorded(old(self)@, op),
    {
        match op {
            Op::Fft(s) => self.record_fft(s),
            Op::Ifft(s) => self.record_ifft(s),
            Op::MsmG1(s) => self.record_msm_g1(s),
            Op::BatchInv(s) => self.record_batch_inv(s),
            Op::FieldInv => self.record_field_inv(),
            Op::Pairing => self.record_pairing(),
            Op::G2ScalarMul => self.record_g2_scalarmul(),
        }
    }

    /// Whether one more `op` fits in the counters.
    pub fn has_room_for(&self, op: Op) -> (r: bool)
        ensures
            r == room_for(self@, op),
    {
        match op {
            Op::Fft(s) => list_has_room(&self.ffts, s),
            Op::Ifft(s) => list_has_room(&self.iffts, s),
            Op::MsmG1(s) => list_has_room(&self.msm_g1, s),
            Op::BatchInv(s) => list_has_room(&self.batch_inv, s),
            Op::FieldInv => self.field_inv < usize::MAX,
            Op::Pairing => self.pairings < usize::MAX,
            Op::G2ScalarMul => self.g2_scalarmul < usize::MAX,
        }
    }

    /// Total number of forward FFTs.
    pub fn fft_count(&self) -> (r: usize)
        requires
            total_count(self.ffts@) <= usize::MAX,
        ensures
            r == total_count(self.ffts@),
    {
        sum_counts(&self.ffts)
    }

    /// Total number of inverse FFTs.
    pub fn ifft_count(&self) -> (r: usize)
        requires
            total_count(self.iffts@) <= usize::MAX,
        ensures
            r == total_count(self.iffts@),
    {
        sum_counts(&self.iffts)
    }

    /// Total number of batch inversions.
    pub fn batch_inv_count(&self) -> (r: usize)
        requires
            total_count(self.batch_inv@) <= usize::MAX,
        ensures
            r == total_count(self.batch_inv@),
    {
        sum_counts(&self.batch_inv)
    }

    /// Total number of FFT operations (forward + inverse).
    pub fn total_ffts(&self) -> (r: usize)
        requires
            total_count(self.ffts@) + total_count(self.iffts@) <= usize::MAX,
        ensures
            r == total_count(self.ffts@) + total_count(self.iffts@),
    {
        sum_counts(&self.ffts) + sum_counts(&self.iffts)
    }

    /// Total number of G1 MSMs.
    pub fn total_msm_g1(&self) -> (r: usize)
        requires
            total_count(self.msm_g1@) <= usize::MAX,
        ensures
            r == total_count(self.msm_g1@),
    {
        sum_counts(&self.msm_g1)
    }
}

fn list_has_room(v: &Vec<(usize, usize)>, size: usize) -> (r: bool)
    ensures
        r == has_room(v@, size),
{
    let len = v.len();
    if len > 0 && v[len - 1].0 == size {
        v[len - 1].1 < usize::MAX
    } else {
        true
    }
}

/// Activate counting, resetting any previous state.
pub fn reset(counter: &mut Option<OpCounts>)
    ensures
        counter_view(*final(counter)) == Some(empty_counts()),
        counter_view(*final(counter)) == counter_after_call(counter_view(*old(counter)), CounterCall::Reset),
{
    *counter = Some(OpCounts::new());
}

/// Deactivate counting and return the accumulated counts.
/// Returns `None` if counting was not active.
pub fn take(counter: &mut Option<OpCounts>) -> (r: Option<OpCounts>)
    ensures
        counter_view(r) == counter_view(*old(counter)),
        final(counter).is_none(),
        counter_view(*final(counter)) == counter_after_call(counter_view(*old(counter)), CounterCall::Take),
{
    let mut out: Option<OpCounts> = None;
    std::mem::swap(&mut out, counter);
    out
}

/// Returns `true` if counting is currently active.
pub fn is_active(counter: &Option<OpCounts>) -> (r: bool)
    ensures
        r == counter.is_some(),
{
    counter.is_some()
}

/// Records `op` if counting is active and the count has room for it.
pub fn record_op(counter: &mut Option<OpCounts>, op: Op)
    ensures
        counter_view(*final(counter)) == counter_after(counter_view(*old(counter)), op),
{
    match counter {
        Some(counts) => {
            if counts.has_room_for(op) {
                counts.record(op);
            }
        },
        None => {},
    }
}

/// Records one forward FFT over a domain of `size` elements.
pub fn record_fft(counter: &mut Option<OpCounts>, size: usize)
    ensures
        counter_view(*final(counter)) == counter_after(counter_view(*old(counter)), Op::Fft(size)),
{
    record_op(counter, Op::Fft(size));
}

/// Records one inverse FFT over a domain of `size` elements.
pub fn record_ifft(counter: &mut Option<OpCounts>, size: usize)
    ensures
        counter_view(*final(counter)) == counter_after(
            counter_view(*old(counter)),
            Op::Ifft(size),
        ),
{
    record_op(counter, Op::Ifft(size));
}

/// Records one G1 MSM over `n_points` points.
pub fn record_msm_g1(counter: &mut Option<OpCounts>, n_points: usize)
    ensures
        counter_view(*final(counter)) == counter_after(
            counter_view(*old(counter)),
            Op::MsmG1(n_points),
        ),
{
    record_op(counter, Op::MsmG1(n_points));
}

/// Records one batch inversion of `n_elems` elements.
pub fn record_batch_inv(counter: &mut Option<OpCounts>, n_elems: usize)
    ensures
        counter_view(*final(counter)) == counter_after(
            counter_view(*old(counter)),
            Op::BatchInv(n_elems),
        ),
{
    record_op(counter, Op::BatchInv(n_elems));
}

/// Records one field inversion.
pub fn record_field_inv(counter: &mut Option<OpCounts>)
    ensures
        counter_view(*final(counter)) == counter_after(counter_view(*old(counter)), Op::FieldInv),
{
    record_op(counter, Op::FieldInv);
}

/// Records one pairing.
pub fn record_pairing(counter: &mut Option<OpCounts>)
    ensures
        counter_view(*final(counter)) == counter_after(counter_view(*old(counter)), Op::Pairing),
{
    record_op(counter, Op::Pairing);
}

/// Records one G2 scalar multiplication.
pub fn record_g2_scalarmul(counter: &mut Option<OpCounts>)
    ensures
        counter_view(*final(counter)) == counter_after(
            counter_view(*old(counter)),
            Op::G2ScalarMul,
        ),
{
    record_op(counter, Op::G2ScalarMul);
}

} // verus!
