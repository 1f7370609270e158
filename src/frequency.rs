//! The cumulative frequency model over the 256 byte values.
use vstd::prelude::*;
use crate::codes::FREQ_MAX;

verus! {

/// The sum of the first `n` entries of `d`.
pub open spec fn prefix_sum(d: Seq<u32>, n: int) -> int
    decreases n,
{
    if n <= 0 {
        0
    } else {
        prefix_sum(d, n - 1) + d[n - 1] as int
    }
}

/// Prefix sums never decrease.
proof fn lemma_prefix_sum_mono(d: Seq<u32>, m: int, n: int)
    requires
        0 <= m <= n,
    ensures
        prefix_sum(d, m) <= prefix_sum(d, n),
    decreases n - m,
{
    if m < n {
        lemma_prefix_sum_mono(d, m, n - 1);
    }
}

/// A cumulative frequency model over symbols of type `C`.
pub trait SymbolFreq<C> {
    /// The sum of the frequencies in the table.
    fn len(&self) -> u32;

    /// The range `[low, high)` of `item` in cumulative counts.
    fn range(&self, item: C) -> (u32, u32);

    /// The symbol whose range holds the cumulative value `i`, with that range.
    fn lookup(&self, i: u32) -> Option<((u32, u32), C)>;
}

/// Cumulative frequencies: entry `i` is the sum of the frequencies of the
/// symbols `0..=i`. The last entry is the total.
#[derive(Clone, Copy)]
pub struct FreqTable(pub(crate) [u32; 256]);

impl FreqTable {
    /// The 256 cumulative counters.
    pub closed spec fn counts(&self) -> Seq<u32> {
        self.0@
    }

    /// The cumulative count up to and including symbol `i`.
    pub open spec fn cum(&self, i: int) -> int {
        self.counts()[i] as int
    }

    /// The cumulative count below symbol `s` (zero for the first symbol).
    pub open spec fn below(&self, s: int) -> int {
        if s <= 0 { 0 } else { self.cum(s - 1) }
    }

    /// The frequency of symbol `s`.
    pub open spec fn freq(&self, s: int) -> int {
        self.cum(s) - self.below(s)
    }

    /// The sum of all frequencies.
    pub open spec fn total(&self) -> int {
        self.cum(255)
    }

    /// The counters never decrease and the total is positive and below `FREQ_MAX`.
    pub open spec fn wf(&self) -> bool {
        &&& forall|i: int, j: int| 0 <= i <= j < 256 ==> #[trigger] self.cum(i) <= #[trigger] self.cum(j)
        &&& 0 < self.total() < FREQ_MAX
    }

    /// The range `[low, high)` of symbol `s` in cumulative counts.
    pub open spec fn spec_range(&self, s: int) -> (int, int) {
        (self.below(s), self.cum(s))
    }

    /// The first symbol at or after `j` whose cumulative count exceeds `v`
    /// (256 when there is none).
    pub open spec fn first_above(&self, v: int, j: int) -> int
        decreases 256 - j,
    {
        if j >= 256 {
            256
        } else if self.cum(j) > v {
            j
        } else {
            self.first_above(v, j + 1)
        }
    }

    /// The symbol whose range holds the cumulative value `v`, with its range,
    /// or `None` when `v` is at or beyond the total.
    pub open spec fn spec_lookup(&self, v: int) -> Option<((int, int), int)> {
        if 0 <= v < self.total() {
            let s = self.first_above(v, 0);
            Some((self.spec_range(s), s))
        } else {
            None
        }
    }

    /// `first_above` finds `p` when every counter in `[k, p)` is at most `v`
    /// and counter `p` (if any) exceeds it.
    proof fn lemma_first_above(&self, v: int, k: int, p: int)
        requires
            0 <= k <= p <= 256,
            forall|j: int| k <= j < p ==> #[trigger] self.cum(j) <= v,
            p < 256 ==> self.cum(p) > v,
        ensures
            self.first_above(v, k) == p,
        decreases p - k,
    {
        if k < p {
            self.lemma_first_above(v, k + 1, p);
        }
    }

    /// `first_above` from `j` lands on a symbol whose counter exceeds `v`
    /// while every earlier counter does not.
    proof fn lemma_first_above_found(&self, v: int, j: int)
        requires
            0 <= j <= 256,
            self.cum(255) > v,
            forall|k: int| 0 <= k < j ==> #[trigger] self.cum(k) <= v,
        ensures
            j <= self.first_above(v, j) < 256,
            self.cum(self.first_above(v, j)) > v,
            forall|k: int| 0 <= k < self.first_above(v, j) ==> #[trigger] self.cum(k) <= v,
        decreases 256 - j,
    {
        if j < 256 && self.cum(j) <= v {
            self.lemma_first_above_found(v, j + 1);
        }
    }

    /// Every cumulative value below the total is looked up to a symbol whose
    /// range holds it.
    pub proof fn lemma_lookup_contains(&self, v: int)
        requires
            self.wf(),
            0 <= v < self.total(),
        ensures
            self.spec_lookup(v) matches Some((r, s)) && 0 <= s < 256 && r == self.spec_range(s) && r.0
                <= v < r.1,
    {
        self.lemma_first_above_found(v, 0);
    }

    /// Lookup inverts range: every cumulative value inside the range of a
    /// symbol is looked up to that symbol and that range.
    pub proof fn lemma_lookup_inverts_range(&self, s: int, v: int)
        requires
            self.wf(),
            0 <= s < 256,
            self.below(s) <= v < self.cum(s),
        ensures
            self.spec_lookup(v) == Some((self.spec_range(s), s)),
    {
        assert(self.cum(s) <= self.total());
        assert forall|j: int| 0 <= j < s implies #[trigger] self.cum(j) <= v by {
            assert(self.cum(j) <= self.cum(s - 1));
        }
        self.lemma_first_above(v, 0, s);
    }

    /// The uniform model: every symbol has frequency one, the total is 256.
    pub fn uniform() -> (r: FreqTable)
        ensures
            r.wf(),
            forall|i: int| 0 <= i < 256 ==> #[trigger] r.cum(i) == i + 1,
    {
        let mut counts: [u32; 256] = [0u32; 256];
        let mut i: usize = 0;
        while i < 256
            invariant
                0 <= i <= 256,
                counts@.len() == 256,
                forall|j: int| 0 <= j < i ==> #[trigger] counts@[j] == j + 1,
            decreases 256 - i,
        {
            counts[i] = (i + 1) as u32;
            i = i + 1;
        }
        let r = FreqTable(counts);
        assert(r.cum(255) == 256);
        r
    }

    /// The sum of all frequencies.
    pub fn len(&self) -> (r: u32)
        ensures
            r == self.total(),
    {
        self.0[255]
    }

    /// The range `[low, high)` of `item` in cumulative counts.
    pub fn range(&self, item: u8) -> (r: (u32, u32))
        ensures
            r.0 == self.below(item as int),
            r.1 == self.cum(item as int),
    {
        if item == 0 {
            return (0, self.0[0]);
        }
        let i = item as usize;
        (self.0[i - 1], self.0[i])
    }

    /// The symbol whose range holds the cumulative value `i`, with that range;
    /// `None` when `i` is at or beyond the total.
    pub fn lookup(&self, i: u32) -> (r: Option<((u32, u32), u8)>)
        ensures
            self.wf() ==> (r matches Some(((l, h), c)) ==> self.spec_lookup(i as int) == Some(
                ((l as int, h as int), c as int),
            )),
            self.wf() ==> (r is None ==> self.spec_lookup(i as int) is None),
    {
        let mut lo: usize = 0;
        let mut hi: usize = 256;
        while lo < hi
            invariant
                0 <= lo <= hi <= 256,
                self.wf() ==> forall|j: int| 0 <= j < lo ==> #[trigger] self.cum(j) <= i,
                self.wf() ==> forall|j: int| hi <= j < 256 ==> #[trigger] self.cum(j) > i,
            decreases hi - lo,
        {
            let mid = lo + (hi - lo) / 2;
            if self.0[mid] <= i {
                proof {
                    if self.wf() {
                        assert forall|j: int| 0 <= j < mid + 1 implies #[trigger] self.cum(j) <= i by {
                            assert(self.cum(j) <= self.cum(mid as int));
                        }
                    }
                }
                lo = mid + 1;
            } else {
                proof {
                    if self.wf() {
                        assert forall|j: int| mid <= j < 256 implies #[trigger] self.cum(j) > i by {
                            assert(self.cum(mid as int) <= self.cum(j));
                        }
                    }
                }
                hi = mid;
            }
        }
        proof {
            if self.wf() {
                self.lemma_first_above(i as int, 0, lo as int);
            }
        }
        if lo == 256 {
            None
        } else {
            let c = lo as u8;
            Some((self.range(c), c))
        }
    }

    /// Adds `value` to the frequency of `item`. Fails, leaving the table as
    /// it was, when the total would reach `FREQ_MAX`.
    pub fn add(&mut self, item: u8, value: u32) -> (r: Option<()>)
        requires
            old(self).wf(),
        ensures
            final(self).wf(),
            r is Some <==> old(self).total() + value < FREQ_MAX,
            r is None ==> *final(self) == *old(self),
            r is Some ==> forall|j: int|
                0 <= j < 256 ==> #[trigger] final(self).cum(j) == old(self).cum(j) + if j >= item {
                    value as int
                } else {
                    0
                },
            r is Some ==> forall|j: int| 0 <= j < 256 ==> old(self).cum(j) <= #[trigger] final(self).cum(j),
            r is Some ==> forall|s: int|
                0 <= s < 256 ==> #[trigger] final(self).freq(s) == old(self).freq(s) + if s == item {
                    value as int
                } else {
                    0
                },
    {
        if value >= FREQ_MAX - self.0[255] {
            return None;
        }
        let ghost before = *self;
        let mut j: usize = item as usize;
        while j < 256
            invariant
                item <= j <= 256,
                before.wf(),
                before.total() + value < FREQ_MAX,
                self.0@.len() == 256,
                forall|k: int| 0 <= k < 256 ==> #[trigger] self.cum(k) == before.cum(k) + if k >= item && k < j {
                    value as int
                } else {
                    0
                },
            decreases 256 - j,
        {
            assert(before.cum(j as int) <= before.total());
            assert(self.cum(j as int) == before.cum(j as int));
            let ghost prev = *self;
            self.0[j] = self.0[j] + value;
            assert forall|k: int| 0 <= k < 256 implies #[trigger] self.cum(k) == before.cum(k) + if k >= item && k < j + 1 {
                value as int
            } else {
                0
            } by {
                assert(prev.cum(k) == before.cum(k) + if k >= item && k < j { value as int } else { 0 });
            }
            j = j + 1;
        }
        assert forall|s: int| 0 <= s < 256 implies #[trigger] self.freq(s) == before.freq(s) + if s == item {
            value as int
        } else {
            0
        } by {
            if s > 0 {
                assert(self.cum(s - 1) == before.cum(s - 1) + if s - 1 >= item { value as int } else { 0 });
            }
        }
        Some(())
    }

    /// Adds the per-symbol frequencies `updates` to the table in one step.
    /// Fails, leaving the table as it was, when the total would reach
    /// `FREQ_MAX`.
    pub fn update(&mut self, updates: [u32; 256]) -> (r: Option<()>)
        requires
            old(self).wf(),
        ensures
            final(self).wf(),
            r is Some <==> old(self).total() + prefix_sum(updates@, 256) < FREQ_MAX,
            r is None ==> *final(self) == *old(self),
            r is Some ==> forall|j: int|
                0 <= j < 256 ==> #[trigger] final(self).cum(j) == old(self).cum(j) + prefix_sum(updates@, j + 1),
            r is Some ==> forall|j: int| 0 <= j < 256 ==> old(self).cum(j) <= #[trigger] final(self).cum(j),
            r is Some ==> forall|s: int|
                0 <= s < 256 ==> #[trigger] final(self).freq(s) == old(self).freq(s) + updates@[s],
    {
        let room: u32 = FREQ_MAX - self.0[255];
        let mut sums: [u32; 256] = [0u32; 256];
        let mut sum: u32 = 0;
        let mut i: usize = 0;
        while i < 256
            invariant
                0 <= i <= 256,
                self.wf(),
                room == FREQ_MAX - self.total(),
                sums@.len() == 256,
                sum == prefix_sum(updates@, i as int),
                sum < room,
                forall|k: int| 0 <= k < i ==> #[trigger] sums@[k] == prefix_sum(updates@, k + 1),
            decreases 256 - i,
        {
            if updates[i] >= room - sum {
                proof {
                    lemma_prefix_sum_mono(updates@, i + 1, 256);
                }
                return None;
            }
            sum = sum + updates[i];
            sums[i] = sum;
            i = i + 1;
        }
        let ghost before = *self;
        let mut j: usize = 0;
        while j < 256
            invariant
                0 <= j <= 256,
                before.wf(),
                before.total() + prefix_sum(updates@, 256) < FREQ_MAX,
                self.0@.len() == 256,
                forall|k: int| 0 <= k < 256 ==> #[trigger] sums@[k] == prefix_sum(updates@, k + 1),
                forall|k: int| 0 <= k < 256 ==> #[trigger] self.cum(k) == before.cum(k) + if k < j {
                    prefix_sum(updates@, k + 1)
                } else {
                    0
                },
            decreases 256 - j,
        {
            proof {
                lemma_prefix_sum_mono(updates@, j + 1, 256);
                assert(before.cum(j as int) <= before.total());
                assert(self.cum(j as int) == before.cum(j as int));
                assert(sums@[j as int] == prefix_sum(updates@, j + 1));
            }
            let ghost prev = *self;
            self.0[j] = self.0[j] + sums[j];
            assert forall|k: int| 0 <= k < 256 implies #[trigger] self.cum(k) == before.cum(k) + if k < j + 1 {
                prefix_sum(updates@, k + 1)
            } else {
                0
            } by {
                assert(prev.cum(k) == before.cum(k) + if k < j { prefix_sum(updates@, k + 1) } else { 0 });
            }
            j = j + 1;
        }
        assert forall|a: int, b: int| 0 <= a <= b < 256 implies #[trigger] self.cum(a) <= #[trigger] self.cum(b) by {
            lemma_prefix_sum_mono(updates@, a + 1, b + 1);
        }
        assert forall|k: int| 0 <= k < 256 implies before.cum(k) <= #[trigger] self.cum(k) by {
            lemma_prefix_sum_mono(updates@, 0, k + 1);
        }
        assert forall|s: int| 0 <= s < 256 implies #[trigger] self.freq(s) == before.freq(s) + updates@[s] by {
            assert(self.cum(s) == before.cum(s) + prefix_sum(updates@, s + 1));
            assert(prefix_sum(updates@, s + 1) == prefix_sum(updates@, s) + updates@[s]);
            if s > 0 {
                assert(self.cum(s - 1) == before.cum(s - 1) + prefix_sum(updates@, s));
            } else {
                assert(prefix_sum(updates@, 0) == 0);
            }
        }
        Some(())
    }
}

impl SymbolFreq<u8> for FreqTable {
    fn len(&self) -> u32 {
        FreqTable::len(self)
    }

    fn range(&self, item: u8) -> (u32, u32) {
        FreqTable::range(self, item)
    }

    fn lookup(&self, i: u32) -> Option<((u32, u32), u8)> {
        FreqTable::lookup(self, i)
    }
}

impl Default for FreqTable {
    /// The uniform model.
    fn default() -> (r: FreqTable)
        ensures
            r.wf(),
            forall|i: int| 0 <= i < 256 ==> #[trigger] r.cum(i) == i + 1,
    {
        FreqTable::uniform()
    }
}

} // verus!
