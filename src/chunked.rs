use vstd::prelude::*;

verus! {

/// What is known of the order of a column's values.
#[derive(Clone, Copy, Debug, PartialEq, Eq, Structural)]
pub enum IsSorted {
    Ascending,
    Descending,
    Not,
}

/// Number of nulls in `s`.
pub open spec fn count_nulls(s: Seq<Option<u32>>) -> nat
    decreases s.len(),
{
    if s.len() == 0 {
        0
    } else {
        count_nulls(s.drop_last()) + if s.last() is None { 1nat } else { 0nat }
    }
}

/// A named, nullable column of `u32` values, stored in one or more chunks.
#[derive(Clone, Debug)]
pub struct UInt32Chunked {
    name: String,
    values: Vec<Option<u32>>,
    n_chunks: usize,
    sorted: IsSorted,
}

/// A named, nullable column of strings.
#[derive(Clone, Debug)]
pub struct StringChunked {
    name: String,
    values: Vec<Option<String>>,
}

impl UInt32Chunked {
    pub closed spec fn spec_name(&self) -> Seq<char> {
        self.name@
    }

    pub closed spec fn spec_values(&self) -> Seq<Option<u32>> {
        self.values@
    }

    pub closed spec fn spec_n_chunks(&self) -> nat {
        self.n_chunks as nat
    }

    pub closed spec fn spec_sorted(&self) -> IsSorted {
        self.sorted
    }

    /// A column of one chunk, with no order known.
    pub fn new(name: String, values: Vec<Option<u32>>) -> (r: UInt32Chunked)
        ensures
            r.spec_name() == name@,
            r.spec_values() == values@,
            r.spec_n_chunks() == 1,
            r.spec_sorted() == IsSorted::Not,
    {
        UInt32Chunked { name, values, n_chunks: 1, sorted: IsSorted::Not }
    }

    /// A copy of this column.
    pub fn duplicate(&self) -> (r: UInt32Chunked)
        ensures
            r.spec_name() == self.spec_name(),
            r.spec_values() == self.spec_values(),
            r.spec_n_chunks() == self.spec_n_chunks(),
            r.spec_sorted() == self.spec_sorted(),
    {
        let values = self.values.clone();
        assert(values@ =~= self.values@);
        UInt32Chunked { name: self.name.clone(), values, n_chunks: self.n_chunks, sorted: self.sorted }
    }

    /// The same values under a new name and chunk count, with no order known.
    pub(crate) fn with_values(&self, values: Vec<Option<u32>>) -> (r: UInt32Chunked)
        ensures
            r.spec_name() == self.spec_name(),
            r.spec_values() == values@,
            r.spec_n_chunks() == self.spec_n_chunks(),
            r.spec_sorted() == IsSorted::Not,
    {
        UInt32Chunked { name: self.name.clone(), values, n_chunks: self.n_chunks, sorted: IsSorted::Not }
    }

    pub fn name(&self) -> (r: &String)
        ensures
            r@ == self.spec_name(),
    {
        &self.name
    }

    pub fn values(&self) -> (r: &Vec<Option<u32>>)
        ensures
            r@ == self.spec_values(),
    {
        &self.values
    }

    pub fn len(&self) -> (r: usize)
        ensures
            r == self.spec_values().len(),
    {
        self.values.len()
    }

    pub fn is_empty(&self) -> (r: bool)
        ensures
            r == (self.spec_values().len() == 0),
    {
        self.values.len() == 0
    }

    pub fn n_chunks(&self) -> (r: usize)
        ensures
            r == self.spec_n_chunks(),
    {
        self.n_chunks
    }

    /// The value at row `i`.
    pub fn get(&self, i: usize) -> (r: Option<u32>)
        requires
            i < self.spec_values().len(),
        ensures
            r == self.spec_values()[i as int],
    {
        self.values[i]
    }

    pub fn null_count(&self) -> (r: usize)
        ensures
            r == count_nulls(self.spec_values()),
    {
        let mut n: usize = 0;
        let mut i: usize = 0;
        while i < self.values.len()
            invariant
                i <= self.values@.len(),
                n == count_nulls(self.values@.take(i as int)),
                n <= i,
            decreases self.values@.len() - i,
        {
            assert(self.values@.take(i + 1).drop_last() == self.values@.take(i as int));
            if self.values[i].is_none() {
                n += 1;
            }
            i += 1;
        }
        assert(self.values@.take(i as int) == self.values@);
        n
    }

    pub fn is_sorted_flag(&self) -> (r: IsSorted)
        ensures
            r == self.spec_sorted(),
    {
        self.sorted
    }

    pub fn set_sorted_flag(&mut self, sorted: IsSorted)
        ensures
            final(self).spec_sorted() == sorted,
            final(self).spec_name() == old(self).spec_name(),
            final(self).spec_values() == old(self).spec_values(),
            final(self).spec_n_chunks() == old(self).spec_n_chunks(),
    {
        self.sorted = sorted;
    }

    /// The values of rows `offset .. offset + length`, clamped to the column.
    pub open spec fn slice_values(&self, offset: usize, length: usize) -> Seq<Option<u32>> {
        self.spec_values().subrange(
            if offset <= self.spec_values().len() { offset as int } else { self.spec_values().len() as int },
            if offset as int + length as int <= self.spec_values().len() { offset as int + length as int } else { self.spec_values().len() as int },
        )
    }

    /// The rows `offset .. offset + length`, clamped to the column.
    pub fn slice(&self, offset: usize, length: usize) -> (r: UInt32Chunked)
        ensures
            r.spec_name() == self.spec_name(),
            r.spec_values() == self.slice_values(offset, length),
            r.spec_n_chunks() == 1,
            r.spec_sorted() == self.spec_sorted(),
    {
        let n = self.values.len();
        let start = if offset <= n { offset } else { n };
        let end = if length <= n - start { start + length } else { n };
        let mut values: Vec<Option<u32>> = Vec::new();
        let mut i: usize = start;
        while i < end
            invariant
                start <= i <= end <= n == self.values@.len(),
                values@ == self.values@.subrange(start as int, i as int),
            decreases end - i,
        {
            values.push(self.values[i]);
            i += 1;
        }
        UInt32Chunked { name: self.name.clone(), values, n_chunks: 1, sorted: self.sorted }
    }

    /// The rows at `indices`, in that order.
    pub fn take(&self, indices: &Vec<usize>) -> (r: UInt32Chunked)
        requires
            forall|k: int| 0 <= k < indices@.len() ==> indices@[k] < self.spec_values().len(),
        ensures
            r.spec_name() == self.spec_name(),
            r.spec_values().len() == indices@.len(),
            forall|k: int| 0 <= k < indices@.len() ==> r.spec_values()[k] == self.spec_values()[indices@[k] as int],
            r.spec_n_chunks() == 1,
            r.spec_sorted() == IsSorted::Not,
    {
        let mut values: Vec<Option<u32>> = Vec::new();
        let mut k: usize = 0;
        while k < indices.len()
            invariant
                k <= indices@.len(),
                forall|j: int| 0 <= j < indices@.len() ==> indices@[j] < self.values@.len(),
                values@.len() == k,
                forall|j: int| 0 <= j < k ==> values@[j] == self.values@[indices@[j] as int],
            decreases indices@.len() - k,
        {
            values.push(self.values[indices[k]]);
            k += 1;
        }
        UInt32Chunked { name: self.name.clone(), values, n_chunks: 1, sorted: IsSorted::Not }
    }

    /// Appends the rows of `other` as further chunks.
    pub fn append(&mut self, other: &UInt32Chunked)
        requires
            old(self).spec_n_chunks() + other.spec_n_chunks() <= usize::MAX,
        ensures
            final(self).spec_name() == old(self).spec_name(),
            final(self).spec_values() == old(self).spec_values() + other.spec_values(),
            final(self).spec_n_chunks() == old(self).spec_n_chunks() + other.spec_n_chunks(),
            final(self).spec_sorted() == IsSorted::Not,
    {
        let mut i: usize = 0;
        let ghost start = self.values@;
        while i < other.values.len()
            invariant
                i <= other.values@.len(),
                self.values@ == start + other.values@.take(i as int),
                self.name == old(self).name,
                self.n_chunks == old(self).n_chunks,
                old(self).n_chunks + other.n_chunks <= usize::MAX,
            decreases other.values@.len() - i,
        {
            self.values.push(other.values[i]);
            assert(other.values@.take(i + 1) == other.values@.take(i as int).push(other.values@[i as int]));
            i += 1;
        }
        assert(other.values@.take(i as int) == other.values@);
        self.n_chunks = self.n_chunks + other.n_chunks;
        self.sorted = IsSorted::Not;
    }
}

/// A named, nullable column of `i64` values.
#[derive(Clone, Debug)]
pub struct Int64Chunked {
    name: String,
    values: Vec<Option<i64>>,
}

impl Int64Chunked {
    pub closed spec fn spec_name(&self) -> Seq<char> {
        self.name@
    }

    pub closed spec fn spec_values(&self) -> Seq<Option<i64>> {
        self.values@
    }

    pub fn new(name: String, values: Vec<Option<i64>>) -> (r: Int64Chunked)
        ensures
            r.spec_name() == name@,
            r.spec_values() == values@,
    {
        Int64Chunked { name, values }
    }

    pub fn name(&self) -> (r: &String)
        ensures
            r@ == self.spec_name(),
    {
        &self.name
    }

    pub fn values(&self) -> (r: &Vec<Option<i64>>)
        ensures
            r@ == self.spec_values(),
    {
        &self.values
    }
}

impl StringChunked {
    pub closed spec fn spec_name(&self) -> Seq<char> {
        self.name@
    }

    /// The values, as character sequences.
    pub closed spec fn spec_values(&self) -> Seq<Option<Seq<char>>> {
        self.values.deep_view()
    }

    pub fn new(name: String, values: Vec<Option<String>>) -> (r: StringChunked)
        ensures
            r.spec_name() == name@,
            r.spec_values() == values.deep_view(),
    {
        StringChunked { name, values }
    }

    pub fn name(&self) -> (r: &String)
        ensures
            r@ == self.spec_name(),
    {
        &self.name
    }

    pub fn values(&self) -> (r: &Vec<Option<String>>)
        ensures
            r.deep_view() == self.spec_values(),
    {
        &self.values
    }

    pub fn len(&self) -> (r: usize)
        ensures
            r == self.spec_values().len(),
    {
        self.values.len()
    }

    /// The value at row `i`.
    pub fn get(&self, i: usize) -> (r: Option<&str>)
        requires
            i < self.spec_values().len(),
        ensures
            match r {
                Some(s) => self.spec_values()[i as int] == Some(s@),
                None => self.spec_values()[i as int] is None,
            },
    {
        match &self.values[i] {
            Some(s) => Some(s.as_str()),
            None => None,
        }
    }
}

} // verus!
