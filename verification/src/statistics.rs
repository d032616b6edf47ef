//! Counting the cells of each opinion, and keeping the counts of the saved iterations.
use vstd::prelude::*;

verus! {

/// The number of cells of `s` that hold opinion `c`.
pub open spec fn occurrences(s: Seq<u8>, c: int) -> nat
    decreases s.len(),
{
    if s.len() == 0 {
        0
    } else {
        occurrences(s.drop_last(), c) + if s.last() == c { 1nat } else { 0nat }
    }
}

/// The sum of the first `len` counts.
pub open spec fn sum_counts(counts: Seq<u32>, len: int) -> int
    decreases len,
{
    if len <= 0 {
        0
    } else {
        sum_counts(counts, len - 1) + counts[len - 1]
    }
}

/// The number of cells of `s` with an opinion below `k`.
pub open spec fn cells_below(s: Seq<u8>, k: int) -> int
    decreases k,
{
    if k <= 0 {
        0
    } else {
        cells_below(s, k - 1) + occurrences(s, k - 1)
    }
}

proof fn lemma_cells_below_push(s: Seq<u8>, x: u8, k: int)
    requires
        k >= 0,
    ensures
        cells_below(s.push(x), k) == cells_below(s, k) + if x < k { 1int } else { 0int },
    decreases k,
{
    assert(s.push(x).drop_last() =~= s);
    if k > 0 {
        lemma_cells_below_push(s, x, k - 1);
    }
}

/// When every opinion is below `k`, the counts of the opinions `0 .. k` add up to the
/// number of cells.
pub proof fn law_counts_add_up(s: Seq<u8>, k: int)
    requires
        k >= 0,
        forall|i: int| 0 <= i < s.len() ==> s[i] < k,
    ensures
        cells_below(s, k) == s.len(),
    decreases s.len(),
{
    if s.len() > 0 {
        let t = s.drop_last();
        law_counts_add_up(t, k);
        lemma_cells_below_push(t, s.last(), k);
        assert(t.push(s.last()) =~= s);
    } else {
        lemma_cells_below_empty(s, k);
    }
}

proof fn lemma_cells_below_empty(s: Seq<u8>, k: int)
    requires
        s.len() == 0,
    ensures
        cells_below(s, k) == 0,
    decreases k,
{
    if k > 0 {
        lemma_cells_below_empty(s, k - 1);
    }
}

/// The counts of each opinion add up to the number of cells, when every opinion is one of
/// the opinions counted.
pub proof fn law_total_is_cell_count(tab: Seq<u8>, counts: Seq<u32>, k: int)
    requires
        k >= 0,
        counts.len() == k,
        forall|c: int| 0 <= c < k ==> #[trigger] counts[c] == occurrences(tab, c),
        forall|i: int| 0 <= i < tab.len() ==> tab[i] < k,
    ensures
        sum_counts(counts, k) == tab.len(),
{
    lemma_sum_is_cells_below(tab, counts, k);
    law_counts_add_up(tab, k);
}

proof fn lemma_sum_is_cells_below(tab: Seq<u8>, counts: Seq<u32>, j: int)
    requires
        0 <= j <= counts.len(),
        forall|c: int| 0 <= c < counts.len() ==> #[trigger] counts[c] == occurrences(tab, c),
    ensures
        sum_counts(counts, j) == cells_below(tab, j),
    decreases j,
{
    if j > 0 {
        lemma_sum_is_cells_below(tab, counts, j - 1);
        assert(counts[j - 1] == occurrences(tab, j - 1));
    }
}

/// The number of cells of each opinion `0 .. k`.
pub fn count_categories(tab: &Vec<u8>, k: u16) -> (counts: Vec<u32>)
    requires
        forall|i: int| 0 <= i < tab@.len() ==> tab@[i] < k,
        tab@.len() <= u32::MAX,
    ensures
        counts@.len() == k,
        forall|c: int| 0 <= c < k ==> #[trigger] counts@[c] == occurrences(tab@, c),
{
    let mut counts: Vec<u32> = vec![0; k as usize];
    let mut i: usize = 0;
    assert forall|c: int| 0 <= c < k implies #[trigger] counts@[c] == occurrences(tab@.take(0), c) by {
        assert(tab@.take(0).len() == 0);
    }
    while i < tab.len()
        invariant
            counts@.len() == k,
            i <= tab@.len(),
            tab@.len() <= u32::MAX,
            forall|j: int| 0 <= j < tab@.len() ==> tab@[j] < k,
            forall|c: int| 0 <= c < k ==> #[trigger] counts@[c] == occurrences(tab@.take(i as int), c),
            forall|c: int| 0 <= c < k ==> #[trigger] counts@[c] <= i,
        decreases tab@.len() - i,
    {
        let c = tab[i] as usize;
        assert(tab@.take(i + 1).drop_last() =~= tab@.take(i as int));
        assert(tab@.take(i + 1).last() == tab@[i as int]);
        counts.set(c, counts[c] + 1);
        i = i + 1;
    }
    assert(tab@.take(tab@.len() as int) =~= tab@);
    counts
}

/// The sum of the counts.
pub fn total_count(counts: &Vec<u32>) -> (total: u32)
    requires
        sum_counts(counts@, counts@.len() as int) <= u32::MAX,
    ensures
        total == sum_counts(counts@, counts@.len() as int),
{
    let mut total: u32 = 0;
    let mut i: usize = 0;
    while i < counts.len()
        invariant
            i <= counts@.len(),
            total == sum_counts(counts@, i as int),
            sum_counts(counts@, counts@.len() as int) <= u32::MAX,
        decreases counts@.len() - i,
    {
        proof {
            lemma_sum_counts_monotone(counts@, i + 1, counts@.len() as int);
        }
        total = total + counts[i];
        i = i + 1;
    }
    total
}

proof fn lemma_sum_counts_monotone(counts: Seq<u32>, a: int, b: int)
    requires
        0 <= a <= b,
    ensures
        sum_counts(counts, a) <= sum_counts(counts, b),
    decreases b - a,
{
    if a < b {
        lemma_sum_counts_monotone(counts, a, b - 1);
    }
}

/// The counts of each opinion at the saved iterations: `history()[c][t]` is the number of
/// cells of opinion `c` at the `t`-th saved iteration.
pub struct OpinionCounts {
    count: Vec<Vec<u32>>,
}

impl OpinionCounts {
    /// The counts of each opinion, one sequence per opinion.
    pub closed spec fn view_counts(&self) -> Seq<Seq<u32>> {
        Seq::new(self.count@.len(), |c: int| self.count@[c]@)
    }

    /// No iteration recorded yet, for `k` opinions.
    pub fn new(k: u16) -> (counts: Self)
        ensures
            counts.view_counts().len() == k,
            forall|c: int| 0 <= c < k ==> #[trigger] counts.view_counts()[c] == Seq::<u32>::empty(),
    {
        let mut count: Vec<Vec<u32>> = Vec::new();
        let mut c: u16 = 0;
        while c < k
            invariant
                c <= k,
                count@.len() == c,
                forall|j: int| 0 <= j < c ==> (#[trigger] count@[j])@ == Seq::<u32>::empty(),
            decreases k - c,
        {
            count.push(Vec::new());
            c = c + 1;
        }
        let r = OpinionCounts { count };
        assert forall|j: int| 0 <= j < k implies #[trigger] r.view_counts()[j] == Seq::<u32>::empty() by {
            assert(r.view_counts()[j] == count@[j]@);
        }
        r
    }

    /// Records the counts of the opinions of `tab` and returns them.
    pub fn record(&mut self, tab: &Vec<u8>) -> (counts: Vec<u32>)
        requires
            old(self).view_counts().len() <= u16::MAX,
            forall|i: int| 0 <= i < tab@.len() ==> tab@[i] < old(self).view_counts().len(),
            tab@.len() <= u32::MAX,
        ensures
            counts@.len() == old(self).view_counts().len(),
            forall|c: int| 0 <= c < counts@.len() ==> #[trigger] counts@[c] == occurrences(tab@, c),
            final(self).view_counts().len() == old(self).view_counts().len(),
            forall|c: int|
                0 <= c < counts@.len() ==> #[trigger] final(self).view_counts()[c] == old(self).view_counts()[c].push(
                    occurrences(tab@, c) as u32,
                ),
    {
        let k = self.count.len() as u16;
        let counts = count_categories(tab, k);
        let ghost before = self.count@;
        let mut c: usize = 0;
        while c < self.count.len()
            invariant
                self.count@.len() == before.len(),
                counts@.len() == before.len(),
                c <= before.len(),
                forall|j: int| 0 <= j < c ==> (#[trigger] self.count@[j])@ == before[j]@.push(counts@[j]),
                forall|j: int| c <= j < before.len() ==> #[trigger] self.count@[j] == before[j],
            decreases before.len() - c,
        {
            let mut v = Vec::new();
            std::mem::swap(&mut v, &mut self.count[c]);
            v.push(counts[c]);
            self.count.set(c, v);
            c = c + 1;
        }
        assert forall|j: int| 0 <= j < counts@.len() implies #[trigger] self.view_counts()[j] == old(self).view_counts()[j].push(
            occurrences(tab@, j) as u32,
        ) by {
            assert(self.view_counts()[j] == self.count@[j]@);
            assert(old(self).view_counts()[j] == before[j]@);
        }
        counts
    }

    /// The counts of each opinion at the saved iterations.
    pub fn history(&self) -> (h: &Vec<Vec<u32>>)
        ensures
            h@.len() == self.view_counts().len(),
            forall|c: int| 0 <= c < h@.len() ==> (#[trigger] h@[c])@ == self.view_counts()[c],
    {
        &self.count
    }
}

} // verus!
