//! The column data model: an immutable, possibly multi-chunk, nullable
//! sequence of native 64-bit integer values, carrying a sortedness tag.
//!
//! A column's view is the flattened sequence of its cells, each cell being
//! `Some(value)` for a present value and `None` for a null. The sortedness
//! tag is part of the column's well-formedness: a non-`Unknown` tag is only
//! ever stored after it has been checked against the data, so consumers may
//! rely on it (the min/max shortcut in particular).

use vstd::prelude::*;

use crate::model::live_values;

verus! {

/// Sortedness metadata of a column, true globally across all chunks in
/// row order whenever it is not `Unknown`.
#[derive(Clone, Copy, PartialEq, Eq, Structural, Debug)]
pub enum Sorted {
    Unknown,
    Ascending,
    Descending,
}

/// One contiguous chunk of a column: native values plus an optional
/// validity mask (absent means no nulls in the chunk).
#[derive(Clone, Debug)]
pub struct Chunk {
    pub values: Vec<i64>,
    pub validity: Option<Vec<bool>>,
}

impl Chunk {
    /// The validity mask, when present, covers exactly the values.
    pub open spec fn wf(self) -> bool {
        match self.validity {
            Some(v) => v@.len() == self.values@.len(),
            None => true,
        }
    }

    pub open spec fn spec_len(self) -> nat {
        self.values@.len()
    }
}

impl View for Chunk {
    type V = Seq<Option<i64>>;

    /// A chunk is viewed as its sequence of cells.
    open spec fn view(&self) -> Seq<Option<i64>> {
        Seq::new(
            self.values@.len(),
            |i: int|
                {
                    let valid = match self.validity {
                        Some(v) => v@[i],
                        None => true,
                    };
                    if valid {
                        Some(self.values@[i])
                    } else {
                        None
                    }
                },
        )
    }
}

/// The flattened cell sequence of a list of chunks, in row order.
pub open spec fn chunks_cells(cs: Seq<Chunk>) -> Seq<Option<i64>>
    decreases cs.len(),
{
    if cs.len() == 0 {
        Seq::empty()
    } else {
        chunks_cells(cs.drop_last()) + cs.last()@
    }
}

/// Every cell of the sequence holds a present value.
pub open spec fn no_nulls(cells: Seq<Option<i64>>) -> bool {
    forall|i: int| 0 <= i < cells.len() ==> cells[i] is Some
}

/// Present values never decrease in row order (meaningful on null-free cells).
pub open spec fn non_decreasing(cells: Seq<Option<i64>>) -> bool {
    forall|i: int, j: int|
        0 <= i <= j < cells.len() ==> #[trigger] cells[i]->Some_0 <= #[trigger] cells[j]->Some_0
}

/// Present values never increase in row order (meaningful on null-free cells).
pub open spec fn non_increasing(cells: Seq<Option<i64>>) -> bool {
    forall|i: int, j: int|
        0 <= i <= j < cells.len() ==> #[trigger] cells[i]->Some_0 >= #[trigger] cells[j]->Some_0
}

/// An immutable, possibly multi-chunk, nullable column of native values.
#[derive(Clone, Debug)]
pub struct Column {
    pub chunks: Vec<Chunk>,
    pub sorted: Sorted,
}

impl View for Column {
    type V = Seq<Option<i64>>;

    /// A column is viewed as its flattened cell sequence.
    open spec fn view(&self) -> Seq<Option<i64>> {
        chunks_cells(self.chunks@)
    }
}

/// The cell sequence induced by a value sequence and a validity mask.
pub open spec fn masked_cells(values: Seq<i64>, validity: Seq<bool>) -> Seq<Option<i64>> {
    Seq::new(
        values.len(),
        |i: int|
            if validity[i] {
                Some(values[i])
            } else {
                None
            },
    )
}

/// Flattening one more chunk appends its cells.
pub proof fn lemma_chunks_cells_take_step(cs: Seq<Chunk>, i: int)
    requires
        0 <= i < cs.len(),
    ensures
        chunks_cells(cs.take(i + 1)) == chunks_cells(cs.take(i)) + cs[i]@,
{
    assert(cs.take(i + 1).drop_last() =~= cs.take(i));
    assert(cs.take(i + 1).last() == cs[i]);
}

/// A prefix of the chunk list flattens to at most as many cells as the
/// whole list.
pub proof fn lemma_chunks_cells_prefix_len(cs: Seq<Chunk>, i: int)
    requires
        0 <= i <= cs.len(),
    ensures
        chunks_cells(cs.take(i)).len() <= chunks_cells(cs).len(),
    decreases cs.len() - i,
{
    if i == cs.len() {
        assert(cs.take(i) =~= cs);
    } else {
        lemma_chunks_cells_prefix_len(cs, i + 1);
        lemma_chunks_cells_take_step(cs, i);
    }
}

/// Adjacent order of present values extends to all pairs.
proof fn lemma_cells_chain_le(cells: Seq<Option<i64>>, i: int, j: int)
    requires
        forall|t: int| 1 <= t < cells.len() ==> (#[trigger] cells[t])->Some_0 >= cells[t - 1]->Some_0,
        0 <= i <= j < cells.len(),
    ensures
        cells[i]->Some_0 <= cells[j]->Some_0,
    decreases j - i,
{
    if i < j {
        lemma_cells_chain_le(cells, i, j - 1);
        assert(cells[j - 1]->Some_0 <= cells[j]->Some_0);
    }
}

/// Adjacent reverse order of present values extends to all pairs.
proof fn lemma_cells_chain_ge(cells: Seq<Option<i64>>, i: int, j: int)
    requires
        forall|t: int| 1 <= t < cells.len() ==> (#[trigger] cells[t])->Some_0 <= cells[t - 1]->Some_0,
        0 <= i <= j < cells.len(),
    ensures
        cells[i]->Some_0 >= cells[j]->Some_0,
    decreases j - i,
{
    if i < j {
        lemma_cells_chain_ge(cells, i, j - 1);
        assert(cells[j - 1]->Some_0 >= cells[j]->Some_0);
    }
}

/// Tests whether every cell of the chunk is present.
pub fn chunk_no_nulls(c: &Chunk) -> (r: bool)
    requires
        c.wf(),
    ensures
        r == no_nulls(c@),
{
    match &c.validity {
        None => {
            assert(no_nulls(c@));
            true
        },
        Some(v) => {
            let mut i: usize = 0;
            while i < v.len()
                invariant
                    c.wf(),
                    i <= v@.len(),
                    v@.len() == c.values@.len(),
                    c.validity matches Some(w) && w@ == v@,
                    forall|j: int| 0 <= j < i ==> c@[j] is Some,
                decreases v@.len() - i,
            {
                if !v[i] {
                    assert(c@[i as int] is None);
                    return false;
                }
                i += 1;
            }
            true
        },
    }
}

/// Tests whether the present values of a null-free chunk never decrease.
pub fn chunk_non_decreasing(c: &Chunk) -> (r: bool)
    requires
        c.wf(),
        no_nulls(c@),
    ensures
        r == non_decreasing(c@),
{
    let n = c.values.len();
    let mut i: usize = 1;
    while i < n
        invariant
            1 <= i,
            n == c.values@.len(),
            c.wf(),
            no_nulls(c@),
            forall|t: int| 1 <= t < i ==> (#[trigger] c@[t])->Some_0 >= c@[t - 1]->Some_0,
        decreases n - i,
    {
        if c.values[i - 1] > c.values[i] {
            assert(c@[i - 1]->Some_0 > c@[i as int]->Some_0);
            return false;
        }
        assert(c@[i - 1]->Some_0 <= c@[i as int]->Some_0);
        i += 1;
    }
    proof {
        assert forall|s: int, t: int| 0 <= s <= t < c@.len() implies #[trigger] c@[s]->Some_0
            <= #[trigger] c@[t]->Some_0 by {
            lemma_cells_chain_le(c@, s, t);
        }
    }
    true
}

/// Tests whether the present values of a null-free chunk never increase.
pub fn chunk_non_increasing(c: &Chunk) -> (r: bool)
    requires
        c.wf(),
        no_nulls(c@),
    ensures
        r == non_increasing(c@),
{
    let n = c.values.len();
    let mut i: usize = 1;
    while i < n
        invariant
            1 <= i,
            n == c.values@.len(),
            c.wf(),
            no_nulls(c@),
            forall|t: int| 1 <= t < i ==> (#[trigger] c@[t])->Some_0 <= c@[t - 1]->Some_0,
        decreases n - i,
    {
        if c.values[i - 1] < c.values[i] {
            assert(c@[i - 1]->Some_0 < c@[i as int]->Some_0);
            return false;
        }
        assert(c@[i - 1]->Some_0 >= c@[i as int]->Some_0);
        i += 1;
    }
    proof {
        assert forall|s: int, t: int| 0 <= s <= t < c@.len() implies #[trigger] c@[s]->Some_0
            >= #[trigger] c@[t]->Some_0 by {
            lemma_cells_chain_ge(c@, s, t);
        }
    }
    true
}

/// Number of nulls in a chunk.
pub fn chunk_null_count(c: &Chunk) -> (r: usize)
    requires
        c.wf(),
    ensures
        r as int == c@.len() - live_values(c@).len(),
        r == 0 <==> no_nulls(c@),
{
    let mut cnt: usize = 0;
    let n = c.values.len();
    let mut i: usize = 0;
    while i < n
        invariant
            i <= n,
            n == c.values@.len(),
            c.wf(),
            cnt as int == i - live_values(c@.take(i as int)).len(),
            cnt <= i,
            (cnt == 0) <==> (forall|j: int| 0 <= j < i ==> c@[j] is Some),
        decreases n - i,
    {
        let valid = match &c.validity {
            None => true,
            Some(v) => v[i],
        };
        assert(c@.take(i + 1).drop_last() =~= c@.take(i as int));
        assert(c@.take(i + 1).last() == c@[i as int]);
        if !valid {
            assert(c@[i as int] is None);
            cnt += 1;
        } else {
            assert(c@[i as int] is Some);
        }
        i += 1;
    }
    assert(c@.take(n as int) =~= c@);
    cnt
}

impl Column {
    /// Well-formedness: every chunk is well-formed, the flattened length
    /// fits the machine, and the sortedness tag, if not `Unknown`, is
    /// globally true (which the engine only ever claims of null-free
    /// columns).
    pub open spec fn wf(self) -> bool {
        &&& forall|i: int| 0 <= i < self.chunks@.len() ==> (#[trigger] self.chunks@[i]).wf()
        &&& self@.len() <= usize::MAX
        &&& self.sorted is Ascending ==> no_nulls(self@) && non_decreasing(self@)
        &&& self.sorted is Descending ==> no_nulls(self@) && non_increasing(self@)
    }

    /// Builds a single-chunk column. The claimed sortedness tag is
    /// asserted against the data, never assumed: a claim that does not
    /// hold (or accompanies nulls) is downgraded to `Unknown`.
    pub fn new(values: Vec<i64>, validity: Option<Vec<bool>>, claimed: Sorted) -> (c: Column)
        requires
            match validity {
                Some(v) => v@.len() == values@.len(),
                None => true,
            },
        ensures
            c.wf(),
            c.chunks@.len() == 1,
            c@ == match validity {
                Some(v) => masked_cells(values@, v@),
                None => Seq::new(values@.len(), |i: int| Some(values@[i])),
            },
            c@.len() == values@.len(),
            c.sorted == match claimed {
                Sorted::Unknown => Sorted::Unknown,
                Sorted::Ascending => if no_nulls(c@) && non_decreasing(c@) {
                    Sorted::Ascending
                } else {
                    Sorted::Unknown
                },
                Sorted::Descending => if no_nulls(c@) && non_increasing(c@) {
                    Sorted::Descending
                } else {
                    Sorted::Unknown
                },
            },
    {
        let n_rows = values.len();
        assert(n_rows as int == values@.len());
        let ghost gvalidity = validity;
        let chunk = Chunk { values, validity };
        let ghost target = chunk@;
        let mut chunks: Vec<Chunk> = Vec::new();
        chunks.push(chunk);
        let mut col = Column { chunks, sorted: Sorted::Unknown };
        proof {
            assert(col.chunks@.drop_last() =~= Seq::<Chunk>::empty());
            assert(chunks_cells(col.chunks@.drop_last()) + col.chunks@.last()@ =~= target);
        }
        assert(col@ == target);
        assert(col.chunks@[0]@ == target);
        let tag = match claimed {
            Sorted::Unknown => Sorted::Unknown,
            Sorted::Ascending => {
                if chunk_no_nulls(&col.chunks[0]) {
                    if chunk_non_decreasing(&col.chunks[0]) {
                        Sorted::Ascending
                    } else {
                        Sorted::Unknown
                    }
                } else {
                    Sorted::Unknown
                }
            },
            Sorted::Descending => {
                if chunk_no_nulls(&col.chunks[0]) {
                    if chunk_non_increasing(&col.chunks[0]) {
                        Sorted::Descending
                    } else {
                        Sorted::Unknown
                    }
                } else {
                    Sorted::Unknown
                }
            },
        };
        col.sorted = tag;
        proof {
            match gvalidity {
                Some(v) => {
                    assert(col@ =~= masked_cells(values@, v@));
                },
                None => {
                    assert(col@ =~= Seq::new(values@.len(), |i: int| Some(values@[i])));
                },
            }
        }
        col
    }

    /// Builds a multi-chunk column with no sortedness claim.
    pub fn new_chunked(chunks: Vec<Chunk>) -> (c: Column)
        requires
            forall|i: int| 0 <= i < chunks@.len() ==> (#[trigger] chunks@[i]).wf(),
            chunks_cells(chunks@).len() <= usize::MAX,
        ensures
            c.wf(),
            c@ == chunks_cells(chunks@),
            c.chunks@ == chunks@,
            c.sorted is Unknown,
    {
        Column { chunks, sorted: Sorted::Unknown }
    }

    /// Number of chunks.
    pub fn n_chunks(&self) -> (r: usize)
        ensures
            r == self.chunks@.len(),
    {
        self.chunks.len()
    }

    /// Number of rows (cells) in the column.
    pub fn len(&self) -> (r: usize)
        requires
            self.wf(),
        ensures
            r == self@.len(),
    {
        let mut total: usize = 0;
        let mut i: usize = 0;
        while i < self.chunks.len()
            invariant
                self.wf(),
                i <= self.chunks@.len(),
                total == chunks_cells(self.chunks@.take(i as int)).len(),
            decreases self.chunks@.len() - i,
        {
            proof {
                lemma_chunks_cells_take_step(self.chunks@, i as int);
                lemma_chunks_cells_prefix_len(self.chunks@, i + 1);
            }
            total = total + self.chunks[i].values.len();
            i += 1;
        }
        proof {
            assert(self.chunks@.take(self.chunks@.len() as int) =~= self.chunks@);
        }
        total
    }

    /// Number of nulls in the column.
    pub fn null_count(&self) -> (r: usize)
        requires
            self.wf(),
        ensures
            r as int == self@.len() - live_values(self@).len(),
    {
        let mut cnt: usize = 0;
        let mut i: usize = 0;
        while i < self.chunks.len()
            invariant
                self.wf(),
                i <= self.chunks@.len(),
                cnt as int == chunks_cells(self.chunks@.take(i as int)).len() - live_values(
                    chunks_cells(self.chunks@.take(i as int)),
                ).len(),
                cnt <= chunks_cells(self.chunks@.take(i as int)).len(),
            decreases self.chunks@.len() - i,
        {
            proof {
                lemma_chunks_cells_take_step(self.chunks@, i as int);
                crate::model::lemma_live_concat(
                    chunks_cells(self.chunks@.take(i as int)),
                    self.chunks@[i as int]@,
                );
                crate::model::lemma_live_len(self.chunks@[i as int]@);
                lemma_chunks_cells_prefix_len(self.chunks@, i + 1);
            }
            let c = chunk_null_count(&self.chunks[i]);
            cnt = cnt + c;
            i += 1;
        }
        proof {
            assert(self.chunks@.take(self.chunks@.len() as int) =~= self.chunks@);
        }
        cnt
    }

    /// Flattens the column into a single chunk with the same cells, which
    /// the gather-reduce kernels index directly.
    pub fn rechunk(&self) -> (r: Chunk)
        requires
            self.wf(),
        ensures
            r.wf(),
            r@ == self@,
    {
        let mut values: Vec<i64> = Vec::new();
        let mut validity: Vec<bool> = Vec::new();
        let mut i: usize = 0;
        while i < self.chunks.len()
            invariant
                self.wf(),
                i <= self.chunks@.len(),
                values@.len() == validity@.len(),
                masked_cells(values@, validity@) == chunks_cells(self.chunks@.take(i as int)),
            decreases self.chunks@.len() - i,
        {
            proof {
                lemma_chunks_cells_take_step(self.chunks@, i as int);
                lemma_chunks_cells_prefix_len(self.chunks@, i + 1);
            }
            let c = &self.chunks[i];
            let m = c.values.len();
            let mut j: usize = 0;
            while j < m
                invariant
                    self.wf(),
                    i < self.chunks@.len(),
                    c == &self.chunks@[i as int],
                    c.wf(),
                    m == c.values@.len(),
                    j <= m,
                    values@.len() == validity@.len(),
                    masked_cells(values@, validity@) == chunks_cells(self.chunks@.take(i as int))
                        + c@.take(j as int),
                    chunks_cells(self.chunks@.take(i as int)).len() + m <= usize::MAX,
                decreases m - j,
            {
                let valid = match &c.validity {
                    None => true,
                    Some(v) => v[j],
                };
                let ghost cell = c@[j as int];
                assert(cell == (if valid {
                    Some(c.values@[j as int])
                } else {
                    None
                }));
                let ghost pre = masked_cells(values@, validity@);
                values.push(c.values[j]);
                validity.push(valid);
                proof {
                    assert forall|t: int| 0 <= t < pre.len() + 1 implies masked_cells(
                        values@,
                        validity@,
                    )[t] == pre.push(cell)[t] by {
                        if t < pre.len() {
                            assert(values@[t] == values@.subrange(0, pre.len() as int)[t]);
                        }
                    }
                    assert(masked_cells(values@, validity@) =~= pre.push(cell));
                    assert(c@.take(j + 1) =~= c@.take(j as int).push(cell));
                    assert(chunks_cells(self.chunks@.take(i as int)) + c@.take(j as int).push(cell)
                        =~= (chunks_cells(self.chunks@.take(i as int)) + c@.take(j as int)).push(
                        cell,
                    ));
                }
                j += 1;
            }
            proof {
                assert(c@.take(m as int) =~= c@);
            }
            i += 1;
        }
        proof {
            assert(self.chunks@.take(self.chunks@.len() as int) =~= self.chunks@);
        }
        let r = Chunk { values, validity: Some(validity) };
        assert(r@ =~= masked_cells(r.values@, r.validity->Some_0@));
        r
    }
}

} // verus!
