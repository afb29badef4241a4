use vstd::prelude::*;
use crate::chunked::{count_nulls, Int64Chunked, IsSorted, StringChunked, UInt32Chunked};
use crate::error::PolarsError;
use crate::revmap::{
    content_hash, distinct_categories, CodeMap, find_category, same_mapping, same_text, CategoricalOrdering,
    RevMapping,
};
use crate::string_cache::StringCache;

verus! {

/// The logical types a categorical column casts to, and its own.
#[derive(Clone, Debug)]
pub enum DataType {
    String,
    UInt32,
    Int64,
    Categorical(Option<RevMapping>, CategoricalOrdering),
    Enum(Option<RevMapping>, CategoricalOrdering),
}

/// A column's name and logical type.
#[derive(Clone, Debug)]
pub struct Field {
    pub name: String,
    pub dtype: DataType,
}

/// One value of a categorical column: its code and the mapping it belongs to.
#[derive(Debug)]
pub enum AnyValue<'a> {
    Null,
    Categorical(u32, &'a RevMapping),
    Enum(u32, &'a RevMapping),
}

/// The result of a cast.
#[derive(Debug)]
pub enum Series {
    String(StringChunked),
    UInt32(UInt32Chunked),
    Int64(Int64Chunked),
    Categorical(CategoricalChunked),
}

/// How a cast treats values that do not convert.
#[derive(Clone, Copy, Debug, PartialEq, Eq, Structural)]
pub enum CastOptions {
    /// Fail.
    Strict,
    /// Give null.
    NonStrict,
}

/// What `str::parse::<i64>` gives for `s`: the integer it writes, if any.
pub uninterp spec fn parsed_i64(s: Seq<char>) -> Option<i64>;

/// Relies on `str::parse::<i64>`: the result depends on the characters alone.
/// Categories are read as integers with Rust's own parser, which accepts an
/// optional sign and decimal digits in range; this stands in for a general
/// string-to-number cast.
#[verifier::external_body]
fn parse_i64(s: &str) -> (r: Option<i64>)
    ensures
        r == parsed_i64(s@),
{
    s.parse::<i64>().ok()
}

/// Every category reads as an `i64`.
pub open spec fn all_parse_i64(cats: Seq<Seq<char>>) -> bool {
    forall|p: int| 0 <= p < cats.len() ==> #[trigger] parsed_i64(cats[p]) is Some
}

/// The `i64` of each row's string; null where the row is null or the
/// string is no `i64`.
pub open spec fn parsed_rows(decoded: Seq<Option<Seq<char>>>) -> Seq<Option<i64>> {
    Seq::new(decoded.len(), |i: int| match decoded[i] {
        Some(s) => parsed_i64(s),
        None => None,
    })
}

/// A column of categories: `u32` codes, a logical type carrying the reverse
/// mapping and ordering, and the fast-unique flag.
#[derive(Clone, Debug)]
pub struct CategoricalChunked {
    physical: UInt32Chunked,
    dtype: DataType,
    fast_unique: bool,
}

pub open spec fn dtype_is_categorical(d: DataType) -> bool {
    d is Categorical || d is Enum
}

pub open spec fn dtype_rev_map(d: DataType) -> Option<RevMapping> {
    match d {
        DataType::Categorical(r, _) => r,
        DataType::Enum(r, _) => r,
        _ => None,
    }
}

pub open spec fn dtype_ordering(d: DataType) -> CategoricalOrdering {
    match d {
        DataType::Categorical(_, o) => o,
        DataType::Enum(_, o) => o,
        _ => CategoricalOrdering::Physical,
    }
}

/// Two logical types are the same, one being a clone of the other.
pub open spec fn same_dtype(a: DataType, b: DataType) -> bool {
    match (a, b) {
        (DataType::String, DataType::String) => true,
        (DataType::UInt32, DataType::UInt32) => true,
        (DataType::Int64, DataType::Int64) => true,
        (DataType::Categorical(r1, o1), DataType::Categorical(r2, o2)) => o1 == o2 && same_opt_mapping(r1, r2),
        (DataType::Enum(r1, o1), DataType::Enum(r2, o2)) => o1 == o2 && same_opt_mapping(r1, r2),
        _ => false,
    }
}

pub open spec fn same_opt_mapping(a: Option<RevMapping>, b: Option<RevMapping>) -> bool {
    match (a, b) {
        (None, None) => true,
        (Some(x), Some(y)) => same_mapping(x, y),
        _ => false,
    }
}

/// Every non-null code belongs to `rm`.
pub open spec fn codes_valid(codes: Seq<Option<u32>>, rm: RevMapping) -> bool {
    forall|i: int| 0 <= i < codes.len() && #[trigger] codes[i] is Some ==> rm.is_code(codes[i]->0)
}

/// The positions among the categories that some row resolves to.
pub open spec fn used_positions(codes: Seq<Option<u32>>, rm: RevMapping) -> Set<int> {
    Set::new(|p: int| exists|i: int| 0 <= i < codes.len() && #[trigger] codes[i] is Some && rm.position(codes[i]->0) == p)
}

/// The positions `0 .. n`.
pub open spec fn all_positions(n: nat) -> Set<int> {
    Set::new(|p: int| 0 <= p < n)
}

pub open spec fn decode_one(v: Option<u32>, rm: RevMapping) -> Option<Seq<char>> {
    match v {
        Some(c) => Some(rm.resolve(c)),
        None => None,
    }
}

/// The strings the codes stand for; nulls stay null.
pub open spec fn decode(codes: Seq<Option<u32>>, rm: RevMapping) -> Seq<Option<Seq<char>>> {
    Seq::new(codes.len(), |i: int| decode_one(codes[i], rm))
}

/// What a column's parts must satisfy: a categorical type with a mapping
/// (local for an enum) of distinct categories, every code in it, and, where
/// the fast-unique flag is set, every category used by some row.
pub open spec fn valid_parts(codes: Seq<Option<u32>>, dtype: DataType, fast_unique: bool) -> bool {
    &&& dtype_is_categorical(dtype)
    &&& dtype_rev_map(dtype) is Some
    &&& (dtype is Enum ==> dtype_rev_map(dtype)->0 is Local)
    &&& dtype_rev_map(dtype)->0.well_formed()
    &&& dtype_rev_map(dtype)->0.has_distinct_categories()
    &&& dtype_rev_map(dtype)->0.categories_view().len() <= u32::MAX
    &&& codes_valid(codes, dtype_rev_map(dtype)->0)
    &&& (fast_unique ==> used_positions(codes, dtype_rev_map(dtype)->0) == all_positions(
        dtype_rev_map(dtype)->0.categories_view().len(),
    ))
}

/// Position in `target` of `s`, if there.
pub open spec fn index_in(target: Seq<Seq<char>>, s: Seq<char>) -> Option<u32> {
    if exists|j: int| 0 <= j < target.len() && target[j] == s {
        Some((choose|j: int| 0 <= j < target.len() && target[j] == s) as u32)
    } else {
        None
    }
}

/// The codes of an enum over `target` that hold the same strings as `codes`
/// under `rm`; a string outside `target` becomes null.
pub open spec fn enum_codes(codes: Seq<Option<u32>>, rm: RevMapping, target: Seq<Seq<char>>) -> Seq<Option<u32>> {
    Seq::new(codes.len(), |i: int| match codes[i] {
        Some(c) => index_in(target, rm.resolve(c)),
        None => None,
    })
}

pub proof fn lemma_same_mapping_decode(codes: Seq<Option<u32>>, a: RevMapping, b: RevMapping)
    requires
        same_mapping(a, b),
    ensures
        decode(codes, a) == decode(codes, b),
        codes_valid(codes, a) == codes_valid(codes, b),
        used_positions(codes, a) == used_positions(codes, b),
        a.categories_view() == b.categories_view(),
        a.is_local() == b.is_local(),
{
    assert(decode(codes, a) =~= decode(codes, b));
    assert(used_positions(codes, a) =~= used_positions(codes, b));
}

pub proof fn lemma_same_dtype_valid(codes: Seq<Option<u32>>, a: DataType, b: DataType, fast_unique: bool)
    requires
        same_dtype(a, b),
    ensures
        valid_parts(codes, a, fast_unique) == valid_parts(codes, b, fast_unique),
        dtype_ordering(a) == dtype_ordering(b),
        dtype_rev_map(a) is Some ==> decode(codes, dtype_rev_map(a)->0) == decode(codes, dtype_rev_map(b)->0),
{
    if dtype_rev_map(a) is Some {
        lemma_same_mapping_decode(codes, dtype_rev_map(a)->0, dtype_rev_map(b)->0);
    }
}

/// The positions marked in `seen`.
pub open spec fn seen_set(seen: Seq<bool>) -> Set<int> {
    Set::new(|p: int| 0 <= p < seen.len() && seen[p])
}

/// Rows `b_codes` under `b` can be appended to rows under `a`: two local
/// mappings alike in hash and size, or two global mappings of one cache
/// generation under which the codes they share mean the same string.
pub open spec fn appendable(a: RevMapping, b: RevMapping, b_codes: Seq<Option<u32>>) -> bool {
    match (a, b) {
        (RevMapping::Local(c1, h1), RevMapping::Local(c2, h2)) => h1 == h2 && c1@.len() == c2@.len(),
        (RevMapping::Global(m1, c1, g1), RevMapping::Global(_, _, g2)) => g1 == g2 && forall|t: int|
            0 <= t < b_codes.len() && #[trigger] b_codes[t] is Some && m1@.contains_key(b_codes[t]->0)
                ==> c1@[m1@[b_codes[t]->0] as int]@ == b.resolve(b_codes[t]->0),
        _ => false,
    }
}

/// With the fast-unique flag set, the rows use exactly as many distinct
/// categories as the mapping holds, so the unique count is read off the
/// mapping without a scan.
pub proof fn lemma_fast_unique_count(col: CategoricalChunked)
    requires
        col.is_valid(),
        col.spec_fast_unique(),
    ensures
        used_positions(col.codes(), col.rev_map()).len() == col.rev_map().categories_view().len(),
{
    let n = col.rev_map().categories_view().len();
    vstd::set_lib::lemma_int_range(0, n as int);
    assert(all_positions(n) =~= vstd::set_lib::set_int_range(0, n as int));
}

/// `m` holds exactly the cache codes of `cats`, each mapped to its position:
/// a key's string in the cache is the category at its position, and every
/// cache code whose string is a category is a key.
pub open spec fn maps_cache_codes(m: Map<u32, u32>, cats: Seq<Seq<char>>, strings: Seq<Seq<char>>) -> bool {
    &&& forall|k: u32| #[trigger] m.contains_key(k) ==> (k as int) < strings.len() && (m[k] as int) < cats.len()
        && strings[k as int] == cats[m[k] as int]
    &&& forall|k: u32, p: int| 0 <= p < cats.len() && (k as int) < strings.len() && #[trigger] strings[k as int] == #[trigger] cats[p]
        ==> m.contains_key(k) && m[k] == p
}

/// Some row before `j` holds the string `s`.
pub open spec fn appears_before(input: Seq<Option<Seq<char>>>, s: Seq<char>, j: int) -> bool {
    exists|k: int| 0 <= k < j && input[k] == Some(s)
}

/// Categories are numbered by first appearance in `input`: every category
/// numbered below a row's code occurs in some earlier row.
pub open spec fn numbered_by_first_appearance(
    codes: Seq<Option<u32>>,
    input: Seq<Option<Seq<char>>>,
    cats: Seq<Seq<char>>,
) -> bool {
    forall|j: int, p: int| 0 <= j < codes.len() && codes[j] is Some && 0 <= p < codes[j]->0
        ==> #[trigger] appears_before(input, cats[p], j)
}

/// Some row before `upto` holds code `p`.
pub open spec fn code_used(codes: Seq<Option<u32>>, upto: int, p: int) -> bool {
    exists|j: int| 0 <= j < upto && codes[j] == Some(p as u32)
}

/// `col` holds the strings of `s`, under its name.
pub open spec fn encodes(col: CategoricalChunked, s: StringChunked) -> bool {
    &&& col.is_valid()
    &&& col.decoded() == s.spec_values()
    &&& col.spec_name() == s.spec_name()
}

/// `out` is the string column that `col` decodes to.
pub open spec fn string_cast_of(out: StringChunked, col: CategoricalChunked) -> bool {
    &&& out.spec_values() == col.decoded()
    &&& out.spec_name() == col.spec_name()
}

impl DataType {
    /// A copy of this type.
    pub fn duplicate(&self) -> (r: DataType)
        ensures
            same_dtype(r, *self),
    {
        match self {
            DataType::String => DataType::String,
            DataType::UInt32 => DataType::UInt32,
            DataType::Int64 => DataType::Int64,
            DataType::Categorical(rm, o) => match rm {
                Some(m) => DataType::Categorical(Some(m.duplicate()), *o),
                None => DataType::Categorical(None, *o),
            },
            DataType::Enum(rm, o) => match rm {
                Some(m) => DataType::Enum(Some(m.duplicate()), *o),
                None => DataType::Enum(None, *o),
            },
        }
    }
}

impl CategoricalChunked {
    pub closed spec fn spec_physical(&self) -> UInt32Chunked {
        self.physical
    }

    pub closed spec fn spec_dtype(&self) -> DataType {
        self.dtype
    }

    pub closed spec fn spec_fast_unique(&self) -> bool {
        self.fast_unique
    }

    pub open spec fn codes(&self) -> Seq<Option<u32>> {
        self.spec_physical().spec_values()
    }

    pub open spec fn spec_name(&self) -> Seq<char> {
        self.spec_physical().spec_name()
    }

    pub open spec fn rev_map(&self) -> RevMapping {
        dtype_rev_map(self.spec_dtype())->0
    }

    pub open spec fn ordering(&self) -> CategoricalOrdering {
        dtype_ordering(self.spec_dtype())
    }

    pub open spec fn spec_is_enum(&self) -> bool {
        self.spec_dtype() is Enum
    }

    pub open spec fn is_valid(&self) -> bool {
        valid_parts(self.codes(), self.spec_dtype(), self.spec_fast_unique())
    }

    /// The strings of the rows; nulls stay null.
    pub open spec fn decoded(&self) -> Seq<Option<Seq<char>>> {
        decode(self.codes(), self.rev_map())
    }

    pub open spec fn spec_can_fast_unique(&self) -> bool {
        &&& self.spec_fast_unique()
        &&& self.spec_physical().spec_n_chunks() == 1
        &&& count_nulls(self.codes()) == 0
    }

    /// A copy of this column.
    pub fn duplicate(&self) -> (r: Self)
        ensures
            r.codes() == self.codes(),
            r.spec_name() == self.spec_name(),
            r.spec_physical().spec_n_chunks() == self.spec_physical().spec_n_chunks(),
            r.spec_physical().spec_sorted() == self.spec_physical().spec_sorted(),
            same_dtype(r.spec_dtype(), self.spec_dtype()),
            r.spec_fast_unique() == self.spec_fast_unique(),
    {
        CategoricalChunked {
            physical: self.physical.duplicate(),
            dtype: self.dtype.duplicate(),
            fast_unique: self.fast_unique,
        }
    }

    pub fn field(&self) -> (r: Field)
        ensures
            r.name@ == self.spec_name(),
            same_dtype(r.dtype, self.spec_dtype()),
    {
        Field { name: self.physical.name().clone(), dtype: self.dtype.duplicate() }
    }

    pub fn is_empty(&self) -> (r: bool)
        ensures
            r == (self.codes().len() == 0),
    {
        self.len() == 0
    }

    pub fn len(&self) -> (r: usize)
        ensures
            r == self.codes().len(),
    {
        self.physical.len()
    }

    pub fn null_count(&self) -> (r: usize)
        ensures
            r == count_nulls(self.codes()),
    {
        self.physical.null_count()
    }

    pub fn name(&self) -> (r: &String)
        ensures
            r@ == self.spec_name(),
    {
        self.physical.name()
    }

    /// The codes, as a plain column.
    pub fn into_physical(self) -> (r: UInt32Chunked)
        ensures
            r == self.spec_physical(),
    {
        self.physical
    }

    /// The codes, as a plain column.
    pub fn physical(&self) -> (r: &UInt32Chunked)
        ensures
            *r == self.spec_physical(),
    {
        &self.physical
    }

    /// The logical type.
    pub fn dtype(&self) -> (r: &DataType)
        ensures
            *r == self.spec_dtype(),
    {
        &self.dtype
    }

    pub fn is_enum(&self) -> (r: bool)
        ensures
            r == self.spec_is_enum(),
    {
        matches!(self.dtype, DataType::Enum(_, _))
    }

    pub fn get_ordering(&self) -> (r: CategoricalOrdering)
        requires
            dtype_is_categorical(self.spec_dtype()),
        ensures
            r == self.ordering(),
    {
        match &self.dtype {
            DataType::Categorical(_, o) => *o,
            DataType::Enum(_, o) => *o,
            _ => CategoricalOrdering::Physical,
        }
    }

    /// Whether values compare by their strings.
    pub fn uses_lexical_ordering(&self) -> (r: bool)
        requires
            dtype_is_categorical(self.spec_dtype()),
        ensures
            r == (self.ordering() == CategoricalOrdering::Lexical),
    {
        self.get_ordering() == CategoricalOrdering::Lexical
    }

    /// The reverse mapping.
    pub fn get_rev_map(&self) -> (r: &RevMapping)
        requires
            dtype_rev_map(self.spec_dtype()) is Some,
        ensures
            *r == self.rev_map(),
    {
        match &self.dtype {
            DataType::Categorical(Some(rm), _) => rm,
            DataType::Enum(Some(rm), _) => rm,
            _ => vstd::pervasive::unreached(),
        }
    }

    /// Convert to the local encoding: a global mapping is replaced by a local
    /// one over the same categories and the codes translated; an enum becomes
    /// a categorical over the same mapping.
    pub fn to_local(&self) -> (r: Self)
        requires
            self.is_valid(),
        ensures
            r.is_valid(),
            r.rev_map().is_local(),
            !r.spec_is_enum(),
            r.decoded() == self.decoded(),
            r.rev_map().categories_view() == self.rev_map().categories_view(),
            r.ordering() == self.ordering(),
            r.spec_name() == self.spec_name(),
            r.spec_physical().spec_n_chunks() == self.spec_physical().spec_n_chunks(),
            self.rev_map().is_local() ==> {
                &&& r.codes() == self.codes()
                &&& same_mapping(r.rev_map(), self.rev_map())
                &&& r.spec_fast_unique() == self.spec_fast_unique()
                &&& r.spec_physical().spec_sorted() == self.spec_physical().spec_sorted()
            },
            !self.rev_map().is_local() ==> {
                &&& r.codes() == Seq::new(self.codes().len(), |i: int| match self.codes()[i] {
                    Some(c) => Some(self.rev_map().position(c) as u32),
                    None => None,
                })
                &&& r.rev_map() matches RevMapping::Local(_, h) && h == content_hash(r.rev_map().categories_view())
                &&& r.spec_fast_unique() == self.spec_can_fast_unique()
            },
    {
        let ordering = self.get_ordering();
        let rm = self.get_rev_map();
        match rm {
            RevMapping::Local(_, _) => {
                let mut local = self.duplicate();
                proof {
                    lemma_same_dtype_valid(self.codes(), local.dtype, self.dtype, self.fast_unique);
                }
                if self.is_enum() {
                    let m = rm.duplicate();
                    local.dtype = DataType::Categorical(Some(m), ordering);
                    proof {
                        lemma_same_mapping_decode(self.codes(), m, *rm);
                    }
                }
                local
            },
            RevMapping::Global(m, c, _) => {
                let cats = c.clone();
                assert(cats@ =~= c@);
                let local_map = RevMapping::build_local(cats);
                let values = self.physical.values();
                let mut out: Vec<Option<u32>> = Vec::new();
                let mut i: usize = 0;
                while i < values.len()
                    invariant
                        i <= values@.len(),
                        values@ == self.codes(),
                        self.is_valid(),
                        *rm == self.rev_map(),
                        rm is Global,
                        out@.len() == i,
                        forall|j: int| 0 <= j < i ==> out@[j] == match self.codes()[j] {
                            Some(c) => Some(self.rev_map().position(c) as u32),
                            None => None,
                        },
                    decreases values@.len() - i,
                {
                    match values[i] {
                        Some(v) => {
                            assert(values@[i as int] is Some);
                            let p = rm.position_of(v);
                            out.push(Some(p));
                        },
                        None => out.push(None),
                    }
                    i += 1;
                }
                let physical = self.physical.with_values(out);
                let fast_unique = self._can_fast_unique();
                let r = CategoricalChunked {
                    physical,
                    dtype: DataType::Categorical(Some(local_map), ordering),
                    fast_unique,
                };
                let ghost lm = r.rev_map();
                assert(lm.categories_view() == self.rev_map().categories_view());
                assert forall|j: int| 0 <= j < r.codes().len() && #[trigger] r.codes()[j] is Some
                    implies lm.is_code(r.codes()[j]->0) by {
                    assert(self.codes()[j] is Some);
                }
                assert(r.decoded() =~= self.decoded());
                assert(used_positions(r.codes(), lm) =~= used_positions(self.codes(), self.rev_map())) by {
                    assert forall|p: int| used_positions(r.codes(), lm).contains(p)
                        implies used_positions(self.codes(), self.rev_map()).contains(p) by {
                        let j = choose|j: int| 0 <= j < r.codes().len() && #[trigger] r.codes()[j] is Some
                            && lm.position(r.codes()[j]->0) == p;
                        assert(self.codes()[j] is Some);
                    }
                    assert forall|p: int| used_positions(self.codes(), self.rev_map()).contains(p)
                        implies used_positions(r.codes(), lm).contains(p) by {
                        let j = choose|j: int| 0 <= j < self.codes().len() && #[trigger] self.codes()[j] is Some
                            && self.rev_map().position(self.codes()[j]->0) == p;
                        assert(r.codes()[j] is Some);
                    }
                }
                r
            },
        }
    }

    /// True where every category is used by some row and the unique values
    /// can be read off the mapping: the flag is set, there is one chunk and
    /// no null.
    pub fn _can_fast_unique(&self) -> (r: bool)
        ensures
            r == self.spec_can_fast_unique(),
    {
        self.fast_unique && self.physical.n_chunks() == 1 && self.physical.null_count() == 0
    }

    /// Convert to the global encoding through `cache`: codes become the cache
    /// codes of their categories. Fails, touching nothing, while the cache is
    /// disabled.
    pub fn to_global(&self, cache: &mut StringCache) -> (r: Result<Self, PolarsError>)
        requires
            self.is_valid(),
            old(cache).well_formed(),
            old(cache).spec_strings().len() + self.rev_map().categories_view().len() <= u32::MAX,
        ensures
            r is Err <==> !old(cache).spec_enabled(),
            r is Err ==> r == Err::<Self, PolarsError>(PolarsError::StringCacheMismatch) && *final(cache) == *old(cache),
            final(cache).spec_strings().len() <= old(cache).spec_strings().len() + self.rev_map().categories_view().len(),
            r matches Ok(g) ==> {
                &&& g.is_valid()
                &&& !g.rev_map().is_local()
                &&& g.decoded() == self.decoded()
                &&& g.rev_map().categories_view() == self.rev_map().categories_view()
                &&& g.ordering() == self.ordering()
                &&& g.spec_name() == self.spec_name()
                &&& g.spec_physical().spec_n_chunks() == self.spec_physical().spec_n_chunks()
                &&& final(cache).well_formed()
                &&& final(cache).spec_enabled()
                &&& final(cache).spec_generation() == old(cache).spec_generation()
                &&& old(cache).spec_strings().is_prefix_of(final(cache).spec_strings())
            },
            r matches Ok(g) ==> (!self.rev_map().is_local() ==> {
                &&& g.codes() == self.codes()
                &&& same_mapping(g.rev_map(), self.rev_map())
                &&& g.spec_is_enum() == self.spec_is_enum()
                &&& g.spec_fast_unique() == self.spec_fast_unique()
                &&& *final(cache) == *old(cache)
            }),
            r matches Ok(g) ==> (self.rev_map().is_local() ==> {
                &&& !g.spec_is_enum()
                &&& !g.spec_fast_unique()
                &&& g.rev_map() matches RevMapping::Global(m, _, gen) && gen == final(cache).spec_generation()
                    && maps_cache_codes(m@, g.rev_map().categories_view(), final(cache).spec_strings())
                &&& forall|i: int| 0 <= i < self.codes().len() ==> match #[trigger] self.codes()[i] {
                    Some(c) => g.codes()[i] matches Some(k) && (k as int) < final(cache).spec_strings().len()
                        && final(cache).spec_strings()[k as int] == self.rev_map().resolve(c),
                    None => g.codes()[i] is None,
                }
            }),
    {
        if !cache.is_enabled() {
            return Err(PolarsError::StringCacheMismatch);
        }
        let ordering = self.get_ordering();
        let rm = self.get_rev_map();
        match rm {
            RevMapping::Global(_, _, _) => {
                let g = self.duplicate();
                proof {
                    lemma_same_dtype_valid(self.codes(), g.dtype, self.dtype, self.fast_unique);
                }
                Ok(g)
            },
            RevMapping::Local(c, _) => {
                let codes = cache.intern_all(c);
                let ghost strings = cache.spec_strings();
                proof {
                    assert(c.deep_view() == self.rev_map().categories_view());
                    assert forall|i: int, i2: int| 0 <= i < i2 < codes@.len() implies codes@[i] != codes@[i2] by {
                        assert(c.deep_view()[i] == c@[i]@);
                        assert(c.deep_view()[i2] == c@[i2]@);
                    }
                }
                let mut map = CodeMap::new();
                let mut j: usize = 0;
                while j < codes.len()
                    invariant
                        j <= codes@.len() == c@.len() <= u32::MAX,
                        forall|i: int| 0 <= i < codes@.len() ==> (codes@[i] as int) < strings.len()
                            && strings[codes@[i] as int] == c@[i]@,
                        forall|k: u32| #[trigger] map@.contains_key(k) ==> map@[k] < j
                            && (k as int) < strings.len() && strings[k as int] == c@[map@[k] as int]@,
                        forall|i: int| 0 <= i < j ==> #[trigger] map@.contains_key(codes@[i]) && map@[codes@[i]] == i,
                        distinct_categories(c.deep_view()),
                        forall|i: int, i2: int| 0 <= i < i2 < codes@.len() ==> codes@[i] != codes@[i2],
                    decreases codes@.len() - j,
                {
                    let ghost before = map@;
                    map.insert(codes[j], j as u32);
                    assert(map@ == before.insert(codes@[j as int], j as u32));
                    j += 1;
                }
                let values = self.physical.values();
                let mut out: Vec<Option<u32>> = Vec::new();
                let mut i: usize = 0;
                while i < values.len()
                    invariant
                        i <= values@.len(),
                        values@ == self.codes(),
                        self.is_valid(),
                        *rm == self.rev_map(),
                        rm is Local,
                        codes@.len() == c@.len() == self.rev_map().categories_view().len(),
                        out@.len() == i,
                        forall|j: int| 0 <= j < i ==> out@[j] == match self.codes()[j] {
                            Some(v) => Some(codes@[v as int]),
                            None => None,
                        },
                    decreases values@.len() - i,
                {
                    match values[i] {
                        Some(v) => {
                            assert(values@[i as int] is Some);
                            out.push(Some(codes[v as usize]));
                        },
                        None => out.push(None),
                    }
                    i += 1;
                }
                let cats = c.clone();
                assert(cats@ =~= c@);
                let physical = self.physical.with_values(out);
                let g = CategoricalChunked {
                    physical,
                    dtype: DataType::Categorical(Some(RevMapping::Global(map, cats, cache.generation())), ordering),
                    fast_unique: false,
                };
                let ghost gm = g.rev_map();
                assert(gm.categories_view() == self.rev_map().categories_view());
                assert forall|t: int| 0 <= t < g.codes().len() && #[trigger] g.codes()[t] is Some
                    implies gm.is_code(g.codes()[t]->0) by {
                    assert(self.codes()[t] is Some);
                    let v = self.codes()[t]->0;
                    assert(map@.contains_key(codes@[v as int]));
                }
                assert forall|t: int| 0 <= t < g.codes().len() implies g.decoded()[t] == self.decoded()[t] by {
                    if self.codes()[t] is Some {
                        let v = self.codes()[t]->0;
                        assert(map@.contains_key(codes@[v as int]));
                        let q = map@[codes@[v as int]];
                        assert(c@[q as int]@ == c@[v as int]@);
                    }
                }
                assert(g.decoded() =~= self.decoded());
                assert forall|k: u32, p: int| 0 <= p < gm.categories_view().len() && (k as int) < strings.len()
                    && #[trigger] strings[k as int] == #[trigger] gm.categories_view()[p]
                    implies map@.contains_key(k) && map@[k] == p by {
                    assert(gm.categories_view()[p] == c@[p]@);
                    assert(strings[codes@[p] as int] == c@[p]@);
                    assert(cache.well_formed());
                    assert(strings == cache.spec_strings());
                    if (k as int) < (codes@[p] as int) {
                        assert(strings[k as int] != strings[codes@[p] as int]);
                    } else if (k as int) > (codes@[p] as int) {
                        assert(strings[codes@[p] as int] != strings[k as int]);
                    }
                    assert(k == codes@[p]);
                    assert(map@.contains_key(codes@[p]));
                }
                assert forall|k: u32| #[trigger] map@.contains_key(k) implies (k as int) < strings.len()
                    && (map@[k] as int) < gm.categories_view().len()
                    && strings[k as int] == gm.categories_view()[map@[k] as int] by {
                    assert(gm.categories_view()[map@[k] as int] == c@[map@[k] as int]@);
                }
                assert forall|t: int| 0 <= t < self.codes().len() implies match #[trigger] self.codes()[t] {
                    Some(v) => g.codes()[t] matches Some(k) && (k as int) < strings.len()
                        && strings[k as int] == self.rev_map().resolve(v),
                    None => g.codes()[t] is None,
                } by {
                    if self.codes()[t] is Some {
                        let v = self.codes()[t]->0;
                        assert(strings[codes@[v as int] as int] == c@[v as int]@);
                    }
                }
                Ok(g)
            },
        }
    }

    /// Convert to an enum over `categories`, whose content hash is `hash`.
    /// Where the column's own mapping is local with that hash, the codes are
    /// kept as they are; otherwise each row gets the position of its string in
    /// `categories`, or null where the string is not there.
    pub fn to_enum(&self, categories: &Vec<String>, hash: u128) -> (r: Self)
        requires
            self.is_valid(),
            categories@.len() <= u32::MAX,
            distinct_categories(categories.deep_view()),
        ensures
            r.is_valid(),
            r.spec_is_enum(),
            r.ordering() == self.ordering(),
            r.spec_name() == self.spec_name(),
            !r.spec_fast_unique(),
            (self.rev_map() matches RevMapping::Local(_, h) && h == hash) ==> {
                &&& r.codes() == self.codes()
                &&& same_mapping(r.rev_map(), self.rev_map())
            },
            !(self.rev_map() matches RevMapping::Local(_, h) && h == hash) ==> {
                &&& r.codes() == enum_codes(self.codes(), self.rev_map(), categories.deep_view())
                &&& r.rev_map() matches RevMapping::Local(c, h) && c@ == categories@ && h == hash
            },
    {
        let ordering = self.get_ordering();
        let rm = self.get_rev_map();
        if let RevMapping::Local(_, cur_hash) = rm {
            if *cur_hash == hash {
                let m = rm.duplicate();
                let r = CategoricalChunked {
                    physical: self.physical.duplicate(),
                    dtype: DataType::Enum(Some(m), ordering),
                    fast_unique: false,
                };
                proof {
                    lemma_same_mapping_decode(self.codes(), m, *rm);
                }
                return r;
            }
        }
        let old_cats = rm.get_categories();
        let ghost target = categories.deep_view();
        let mut table: Vec<Option<u32>> = Vec::new();
        let mut p: usize = 0;
        while p < old_cats.len()
            invariant
                p <= old_cats@.len(),
                old_cats.deep_view() == rm.categories_view(),
                target == categories.deep_view(),
                categories@.len() <= u32::MAX,
                distinct_categories(target),
                table@.len() == p,
                forall|q: int| 0 <= q < p ==> table@[q] == index_in(target, old_cats@[q]@),
            decreases old_cats@.len() - p,
        {
            let found = find_category(categories, old_cats[p].as_str());
            proof {
                let s = old_cats@[p as int]@;
                if let Some(k) = found {
                    assert(target[k as int] == s);
                    let w = choose|j: int| 0 <= j < target.len() && target[j] == s;
                    assert(w == k as int);
                } else {
                    assert(!(exists|j: int| 0 <= j < target.len() && target[j] == s));
                }
            }
            table.push(found);
            p += 1;
        }
        let values = self.physical.values();
        let mut out: Vec<Option<u32>> = Vec::new();
        let mut i: usize = 0;
        while i < values.len()
            invariant
                i <= values@.len(),
                values@ == self.codes(),
                self.is_valid(),
                *rm == self.rev_map(),
                table@.len() == old_cats@.len(),
                old_cats.deep_view() == rm.categories_view(),
                forall|q: int| 0 <= q < table@.len() ==> table@[q] == index_in(target, old_cats@[q]@),
                out@.len() == i,
                forall|j: int| 0 <= j < i ==> out@[j] == enum_codes(self.codes(), self.rev_map(), target)[j],
            decreases values@.len() - i,
        {
            match values[i] {
                Some(v) => {
                    assert(values@[i as int] is Some);
                    let q = rm.position_of(v);
                    assert(old_cats.deep_view()[q as int] == old_cats@[q as int]@);
                    assert(self.rev_map().resolve(v) == old_cats@[q as int]@);
                    out.push(table[q as usize]);
                },
                None => out.push(None),
            }
            i += 1;
        }
        assert(out@ =~= enum_codes(self.codes(), self.rev_map(), target));
        let cats = categories.clone();
        assert(cats@ =~= categories@);
        let r = CategoricalChunked {
            physical: self.physical.with_values(out),
            dtype: DataType::Enum(Some(RevMapping::Local(cats, hash)), ordering),
            fast_unique: false,
        };
        assert forall|t: int| 0 <= t < r.codes().len() && #[trigger] r.codes()[t] is Some
            implies r.rev_map().is_code(r.codes()[t]->0) by {
            let s = self.rev_map().resolve(self.codes()[t]->0);
            assert(exists|j: int| 0 <= j < target.len() && target[j] == s);
        }
        r
    }

    /// A column over codes `idx` of logical type `dtype`, with the fast-unique
    /// flag clear. The codes are not checked against the mapping: that is the
    /// caller's duty.
    pub fn from_cats_and_dtype_unchecked(idx: UInt32Chunked, dtype: DataType) -> (r: Self)
        requires
            dtype_is_categorical(dtype),
            dtype_rev_map(dtype) is Some ==> valid_parts(idx.spec_values(), dtype, false),
        ensures
            r.spec_physical() == idx,
            r.spec_dtype() == dtype,
            !r.spec_fast_unique(),
            dtype_rev_map(dtype) is Some ==> r.is_valid(),
    {
        CategoricalChunked { physical: idx, dtype, fast_unique: false }
    }

    /// A column over codes `idx` and mapping `rev_map`, an enum or a
    /// categorical, with the fast-unique flag clear.
    pub fn from_cats_and_rev_map_unchecked(
        idx: UInt32Chunked,
        rev_map: RevMapping,
        is_enum: bool,
        ordering: CategoricalOrdering,
    ) -> (r: Self)
        requires
            valid_parts(
                idx.spec_values(),
                if is_enum { DataType::Enum(Some(rev_map), ordering) } else { DataType::Categorical(Some(rev_map), ordering) },
                false,
            ),
        ensures
            r.is_valid(),
            r.spec_physical() == idx,
            r.rev_map() == rev_map,
            r.spec_is_enum() == is_enum,
            r.ordering() == ordering,
            !r.spec_fast_unique(),
    {
        let dtype = if is_enum {
            DataType::Enum(Some(rev_map), ordering)
        } else {
            DataType::Categorical(Some(rev_map), ordering)
        };
        CategoricalChunked { physical: idx, dtype, fast_unique: false }
    }

    /// The column with ordering `ordering`; the fast-unique flag is cleared
    /// unless `keep_fast_unique`, and the sorted flag is cleared when the
    /// ordering is lexical.
    pub fn set_ordering(self, ordering: CategoricalOrdering, keep_fast_unique: bool) -> (r: Self)
        requires
            self.is_valid(),
        ensures
            r.is_valid(),
            r.ordering() == ordering,
            r.codes() == self.codes(),
            r.spec_name() == self.spec_name(),
            r.spec_physical().spec_n_chunks() == self.spec_physical().spec_n_chunks(),
            r.rev_map() == self.rev_map(),
            r.decoded() == self.decoded(),
            r.spec_is_enum() == self.spec_is_enum(),
            r.spec_fast_unique() == (keep_fast_unique && self.spec_fast_unique()),
            ordering == CategoricalOrdering::Lexical ==> r.spec_physical().spec_sorted() == IsSorted::Not,
            ordering == CategoricalOrdering::Physical ==> r.spec_physical().spec_sorted() == self.spec_physical().spec_sorted(),
    {
        let ghost before = self;
        let is_enum = self.is_enum();
        let CategoricalChunked { mut physical, dtype, fast_unique } = self;
        let rm = match dtype {
            DataType::Categorical(Some(rm), _) => rm,
            DataType::Enum(Some(rm), _) => rm,
            _ => vstd::pervasive::unreached(),
        };
        let dtype = if is_enum {
            DataType::Enum(Some(rm), ordering)
        } else {
            DataType::Categorical(Some(rm), ordering)
        };
        if ordering == CategoricalOrdering::Lexical {
            physical.set_sorted_flag(IsSorted::Not);
        }
        let this = CategoricalChunked { physical, dtype, fast_unique: keep_fast_unique && fast_unique };
        assert(this.decoded() =~= before.decoded());
        this
    }

    /// Replace the mapping by `rev_map`, under which every code must resolve;
    /// the fast-unique flag is cleared unless `keep_fast_unique`.
    pub fn set_rev_map(&mut self, rev_map: RevMapping, keep_fast_unique: bool)
        requires
            dtype_is_categorical(old(self).spec_dtype()),
            valid_parts(
                old(self).codes(),
                if old(self).spec_is_enum() {
                    DataType::Enum(Some(rev_map), old(self).ordering())
                } else {
                    DataType::Categorical(Some(rev_map), old(self).ordering())
                },
                keep_fast_unique && old(self).spec_fast_unique(),
            ),
        ensures
            final(self).is_valid(),
            final(self).rev_map() == rev_map,
            final(self).spec_physical() == old(self).spec_physical(),
            final(self).ordering() == old(self).ordering(),
            final(self).spec_is_enum() == old(self).spec_is_enum(),
            final(self).spec_fast_unique() == (keep_fast_unique && old(self).spec_fast_unique()),
    {
        let ordering = self.get_ordering();
        self.dtype = if self.is_enum() {
            DataType::Enum(Some(rev_map), ordering)
        } else {
            DataType::Categorical(Some(rev_map), ordering)
        };
        if !keep_fast_unique {
            self.fast_unique = false;
        }
    }

    /// Set or clear the fast-unique flag. Setting it asserts that every
    /// category is used by some row.
    pub fn set_fast_unique(&mut self, toggle: bool)
        requires
            toggle ==> valid_parts(old(self).codes(), old(self).spec_dtype(), true),
        ensures
            final(self).spec_fast_unique() == toggle,
            final(self).spec_physical() == old(self).spec_physical(),
            final(self).spec_dtype() == old(self).spec_dtype(),
    {
        self.fast_unique = toggle;
    }

    /// The column with the fast-unique flag set to `toggle`.
    pub fn with_fast_unique(self, toggle: bool) -> (r: Self)
        requires
            toggle ==> valid_parts(self.codes(), self.spec_dtype(), true),
        ensures
            r.spec_fast_unique() == toggle,
            r.spec_physical() == self.spec_physical(),
            r.spec_dtype() == self.spec_dtype(),
    {
        let mut this = self;
        this.set_fast_unique(toggle);
        this
    }

    /// The column with the fast-unique flag set to `toggle`.
    pub fn _with_fast_unique(self, toggle: bool) -> (r: Self)
        requires
            toggle ==> valid_parts(self.codes(), self.spec_dtype(), true),
        ensures
            r.spec_fast_unique() == toggle,
            r.spec_physical() == self.spec_physical(),
            r.spec_dtype() == self.spec_dtype(),
    {
        self.with_fast_unique(toggle)
    }

    /// The sortedness flag of the codes.
    pub fn get_flags(&self) -> (r: IsSorted)
        ensures
            r == self.spec_physical().spec_sorted(),
    {
        self.physical.is_sorted_flag()
    }

    /// Set the sortedness flag of the codes; a column ordered lexically never
    /// keeps one, as the order of its codes says nothing of its strings.
    pub fn set_flags(&mut self, flags: IsSorted)
        requires
            dtype_is_categorical(old(self).spec_dtype()),
        ensures
            final(self).spec_physical().spec_sorted() == if old(self).ordering() == CategoricalOrdering::Lexical {
                IsSorted::Not
            } else {
                flags
            },
            final(self).codes() == old(self).codes(),
            final(self).spec_name() == old(self).spec_name(),
            final(self).spec_physical().spec_n_chunks() == old(self).spec_physical().spec_n_chunks(),
            final(self).spec_dtype() == old(self).spec_dtype(),
            final(self).spec_fast_unique() == old(self).spec_fast_unique(),
    {
        let f = if self.uses_lexical_ordering() { IsSorted::Not } else { flags };
        self.physical.set_sorted_flag(f);
    }

    /// The value at row `i`, or an out-of-bounds error.
    pub fn get_any_value(&self, i: usize) -> (r: Result<AnyValue<'_>, PolarsError>)
        requires
            self.is_valid(),
        ensures
            i >= self.codes().len() <==> r == Err::<AnyValue<'_>, PolarsError>(PolarsError::OutOfBounds { index: i, len: self.codes().len() as usize }),
            i < self.codes().len() ==> (r matches Ok(v) && v == self.spec_any_value(i as int)),
    {
        if i >= self.len() {
            return Err(PolarsError::OutOfBounds { index: i, len: self.len() });
        }
        Ok(self.get_any_value_unchecked(i))
    }

    pub open spec fn spec_any_value(&self, i: int) -> AnyValue<'_> {
        match self.codes()[i] {
            Some(c) => if self.spec_is_enum() {
                AnyValue::Enum(c, &self.rev_map())
            } else {
                AnyValue::Categorical(c, &self.rev_map())
            },
            None => AnyValue::Null,
        }
    }

    /// The value at row `i`, which must be in bounds.
    pub fn get_any_value_unchecked(&self, i: usize) -> (r: AnyValue<'_>)
        requires
            self.is_valid(),
            i < self.codes().len(),
        ensures
            r == self.spec_any_value(i as int),
    {
        match self.physical.get(i) {
            Some(c) => if self.is_enum() {
                AnyValue::Enum(c, self.get_rev_map())
            } else {
                AnyValue::Categorical(c, self.get_rev_map())
            },
            None => AnyValue::Null,
        }
    }

    /// The strings of the rows, front to back or back to front.
    pub fn iter_str(&self) -> (r: CatIter<'_>)
        requires
            self.is_valid(),
        ensures
            r.valid(),
            r.remaining() == self.decoded(),
    {
        CatIter { rev: self.get_rev_map(), values: self.physical.values(), front: 0, back: self.physical.len() }
    }

    /// Dictionary-encode `values` locally: each distinct string becomes a
    /// category, numbered by first appearance, and every row its code. Every
    /// category is used, so the fast-unique flag is set.
    pub fn from_strings(values: &StringChunked, ordering: CategoricalOrdering) -> (r: Self)
        requires
            values.spec_values().len() <= u32::MAX,
        ensures
            encodes(r, *values),
            numbered_by_first_appearance(r.codes(), values.spec_values(), r.rev_map().categories_view()),
            r.rev_map() matches RevMapping::Local(_, h) && h == content_hash(r.rev_map().categories_view()),
            !r.spec_is_enum(),
            r.ordering() == ordering,
            r.spec_fast_unique(),
            r.spec_physical().spec_n_chunks() == 1,
            r.spec_physical().spec_sorted() == IsSorted::Not,
    {
        let n = values.len();
        let ghost input = values.spec_values();
        let mut cats: Vec<String> = Vec::new();
        let mut codes: Vec<Option<u32>> = Vec::new();
        let mut i: usize = 0;
        while i < n
            invariant
                i <= n == input.len() <= u32::MAX,
                input == values.spec_values(),
                cats@.len() <= i,
                distinct_categories(cats.deep_view()),
                codes@.len() == i,
                forall|j: int| 0 <= j < i ==> match #[trigger] input[j] {
                    None => codes@[j] is None,
                    Some(t) => codes@[j] matches Some(c) && (c as int) < cats@.len() && cats@[c as int]@ == t,
                },
                forall|p: int| 0 <= p < cats@.len() ==> #[trigger] code_used(codes@, i as int, p),
                numbered_by_first_appearance(codes@, input, cats.deep_view()),
            decreases n - i,
        {
            let ghost codes_before = codes@;
            let ghost n_cats_before = cats@.len();
            let ghost cats_before = cats.deep_view();
            match values.get(i) {
                None => {
                    codes.push(None);
                },
                Some(t) => {
                    match find_category(&cats, t) {
                        Some(c) => {
                            codes.push(Some(c));
                            assert(c < n_cats_before);
                        },
                        None => {
                            let c = cats.len() as u32;
                            let ghost before = cats.deep_view();
                            cats.push(t.to_string());
                            assert(cats.deep_view() =~= before.push(t@));
                            codes.push(Some(c));
                            assert(codes@[i as int] == Some(c));
                        },
                    }
                },
            }
            proof {
                assert forall|p: int| 0 <= p < cats@.len() implies #[trigger] code_used(codes@, i + 1, p) by {
                    if p < n_cats_before {
                        assert(code_used(codes_before, i as int, p));
                        let j = choose|j: int| 0 <= j < i && codes_before[j] == Some(p as u32);
                        assert(codes@[j] == Some(p as u32));
                    } else {
                        assert(codes@[i as int] == Some(p as u32));
                    }
                }
                let cv = cats.deep_view();
                assert forall|z: int| 0 <= z < n_cats_before implies cv[z] == cats_before[z] by {
                    assert(cv[z] == cats@[z]@);
                }
                assert forall|j: int, p: int| 0 <= j < codes@.len() && codes@[j] is Some && 0 <= p < codes@[j]->0
                    implies #[trigger] appears_before(input, cv[p], j) by {
                    if j < i {
                        assert(codes_before[j] == codes@[j]);
                        assert(input[j] is Some);
                        assert(p < n_cats_before);
                        assert(cv[p] == cats_before[p]);
                        assert(appears_before(input, cats_before[p], j));
                    } else {
                        assert(j == i);
                        assert(p < n_cats_before);
                        assert(code_used(codes_before, i as int, p));
                        let k = choose|k: int| 0 <= k < i && codes_before[k] == Some(p as u32);
                        assert(input[k] is Some);
                        assert(cv[p] == cats@[p]@);
                        assert(input[k] == Some(cv[p]));
                    }
                }
            }
            i += 1;
        }
        let local = RevMapping::build_local(cats);
        let physical = UInt32Chunked::new(values.name().clone(), codes);
        let r = CategoricalChunked {
            physical,
            dtype: DataType::Categorical(Some(local), ordering),
            fast_unique: true,
        };
        assert forall|t: int| 0 <= t < r.codes().len() && #[trigger] r.codes()[t] is Some
            implies r.rev_map().is_code(r.codes()[t]->0) by {
            assert(input[t] is Some);
        }
        assert forall|t: int| 0 <= t < r.codes().len() implies r.decoded()[t] == input[t] by {
            if input[t] is Some {
                assert(input[t] is Some);
            }
        }
        assert(r.decoded() =~= input);
        assert(used_positions(r.codes(), r.rev_map()) =~= all_positions(r.rev_map().categories_view().len())) by {
            assert forall|p: int| all_positions(r.rev_map().categories_view().len()).contains(p)
                implies used_positions(r.codes(), r.rev_map()).contains(p) by {
                assert(code_used(r.codes(), i as int, p));
                let j = choose|j: int| 0 <= j < i && r.codes()[j] == Some(p as u32);
                assert(r.codes()[j] is Some);
            }
            assert forall|p: int| used_positions(r.codes(), r.rev_map()).contains(p)
                implies all_positions(r.rev_map().categories_view().len()).contains(p) by {
                let j = choose|j: int| 0 <= j < r.codes().len() && #[trigger] r.codes()[j] is Some
                    && r.rev_map().position(r.codes()[j]->0) == p;
                assert(input[j] is Some);
            }
        }
        r
    }

    /// Cast the categories to `i64` and gather them by code: the rows read
    /// as integers. A strict cast fails where any category is no integer; a
    /// non-strict one gives null there.
    fn cast_to_i64(&self, options: CastOptions) -> (r: Result<Series, PolarsError>)
        requires
            self.is_valid(),
        ensures
            if options == CastOptions::Strict && !all_parse_i64(self.rev_map().categories_view()) {
                r matches Err(e) && e == PolarsError::ConversionFailed
            } else {
                r matches Ok(Series::Int64(out)) && out.spec_values() == parsed_rows(self.decoded())
                    && out.spec_name() == self.spec_name()
            },
    {
        let local = self.to_local();
        let rm = local.get_rev_map();
        let cats = rm.get_categories();
        let mut parsed: Vec<Option<i64>> = Vec::new();
        let mut all: bool = true;
        let mut p: usize = 0;
        while p < cats.len()
            invariant
                p <= cats@.len(),
                cats.deep_view() == self.rev_map().categories_view(),
                parsed@.len() == p,
                forall|q: int| 0 <= q < p ==> parsed@[q] == parsed_i64(cats@[q]@),
                all == forall|q: int| 0 <= q < p ==> #[trigger] parsed_i64(cats@[q]@) is Some,
            decreases cats@.len() - p,
        {
            let v = parse_i64(cats[p].as_str());
            if v.is_none() {
                all = false;
            }
            parsed.push(v);
            p += 1;
        }
        proof {
            let view = self.rev_map().categories_view();
            assert forall|q: int| 0 <= q < cats@.len() implies #[trigger] parsed_i64(view[q]) == parsed_i64(cats@[q]@) by {
                assert(view[q] == cats.deep_view()[q]);
                assert(cats.deep_view()[q] == cats@[q]@);
            }
            if all {
                assert forall|q: int| 0 <= q < view.len() implies #[trigger] parsed_i64(view[q]) is Some by {
                    assert(parsed_i64(cats@[q]@) is Some);
                }
            } else {
                let q = choose|q: int| 0 <= q < p && !(#[trigger] parsed_i64(cats@[q]@) is Some);
                assert(!(parsed_i64(view[q]) is Some));
            }
            assert(all == all_parse_i64(view));
        }
        if options == CastOptions::Strict && !all {
            return Err(PolarsError::ConversionFailed);
        }
        let values = local.physical.values();
        let mut out: Vec<Option<i64>> = Vec::new();
        let mut i: usize = 0;
        while i < values.len()
            invariant
                i <= values@.len(),
                values@ == local.codes(),
                local.is_valid(),
                local.rev_map().is_local(),
                *rm == local.rev_map(),
                local.decoded() == self.decoded(),
                parsed@.len() == cats@.len(),
                cats.deep_view() == local.rev_map().categories_view(),
                forall|q: int| 0 <= q < parsed@.len() ==> parsed@[q] == parsed_i64(cats@[q]@),
                out@.len() == i,
                forall|j: int| 0 <= j < i ==> out@[j] == parsed_rows(self.decoded())[j],
            decreases values@.len() - i,
        {
            match values[i] {
                Some(c) => {
                    assert(values@[i as int] is Some);
                    assert(cats.deep_view()[c as int] == cats@[c as int]@);
                    assert(local.rev_map().resolve(c) == local.rev_map().categories_view()[c as int]);
                    assert(local.decoded()[i as int] == Some(cats@[c as int]@));
                    out.push(parsed[c as usize]);
                },
                None => out.push(None),
            }
            i += 1;
        }
        assert(out@ =~= parsed_rows(self.decoded()));
        Ok(Series::Int64(Int64Chunked::new(self.physical.name().clone(), out)))
    }

    /// Cast to `dtype`: strings, the bare codes, integers read from the categories, an enum over a local
    /// mapping, or a categorical with a given ordering. `cache` is used, and
    /// may grow, only where an enum becomes a categorical while it is enabled.
    pub fn cast_with_options(&self, dtype: &DataType, options: CastOptions, cache: &mut StringCache) -> (r: Result<Series, PolarsError>)
        requires
            self.is_valid(),
            old(cache).well_formed(),
            (self.spec_is_enum() && (*dtype matches DataType::Categorical(None, _)))
                ==> old(cache).spec_strings().len() + self.rev_map().categories_view().len() <= u32::MAX,
            dtype_rev_map(*dtype) matches Some(RevMapping::Local(c, _)) ==> c@.len() <= u32::MAX && distinct_categories(c.deep_view()),
        ensures
            final(cache).well_formed(),
            !(self.spec_is_enum() && (*dtype matches DataType::Categorical(None, _)) && old(cache).spec_enabled()) ==> *final(cache) == *old(cache),
            match *dtype {
                DataType::String => r matches Ok(Series::String(out)) && string_cast_of(out, *self),
                DataType::UInt32 => r matches Ok(Series::UInt32(p)) && p.spec_values() == self.codes()
                    && p.spec_name() == self.spec_name() && p.spec_n_chunks() == self.spec_physical().spec_n_chunks(),
                DataType::Int64 => if options == CastOptions::Strict && !all_parse_i64(self.rev_map().categories_view()) {
                    r matches Err(e) && e == PolarsError::ConversionFailed
                } else {
                    r matches Ok(Series::Int64(out)) && out.spec_values() == parsed_rows(self.decoded())
                        && out.spec_name() == self.spec_name()
                },
                DataType::Enum(None, _) => r matches Err(e) && e == PolarsError::EnumWithoutCategories,
                DataType::Enum(Some(RevMapping::Global(..)), _) => r matches Err(e) && e == PolarsError::EnumWithGlobalMapping,
                DataType::Enum(Some(RevMapping::Local(c, h)), o) => r matches Ok(Series::Categorical(e)) && {
                    &&& e.is_valid()
                    &&& e.spec_is_enum()
                    &&& e.ordering() == o
                    &&& e.spec_name() == self.spec_name()
                    &&& !e.spec_fast_unique()
                    &&& (self.rev_map() matches RevMapping::Local(_, h0) && h0 == h) ==> e.codes() == self.codes()
                        && same_mapping(e.rev_map(), self.rev_map())
                    &&& !(self.rev_map() matches RevMapping::Local(_, h0) && h0 == h) ==> e.codes() == enum_codes(self.codes(), self.rev_map(), c.deep_view())
                        && (e.rev_map() matches RevMapping::Local(c2, h2) && c2@ == c@ && h2 == h)
                },
                DataType::Categorical(rm, o) => r matches Ok(Series::Categorical(e)) && {
                    &&& e.is_valid()
                    &&& e.decoded() == self.decoded()
                    &&& e.ordering() == o
                    &&& e.spec_name() == self.spec_name()
                    &&& e.spec_physical().spec_n_chunks() == self.spec_physical().spec_n_chunks()
                    &&& o == CategoricalOrdering::Lexical ==> e.spec_physical().spec_sorted() == IsSorted::Not
                    &&& (self.spec_is_enum() && rm is None) ==> !e.spec_is_enum() && e.rev_map().is_local() == !old(cache).spec_enabled()
                    &&& (self.spec_is_enum() && rm is None && !old(cache).spec_enabled()) ==> e.codes() == self.codes()
                        && same_mapping(e.rev_map(), self.rev_map())
                    &&& (self.spec_is_enum() && rm is None && old(cache).spec_enabled()) ==> {
                        &&& !e.spec_fast_unique()
                        &&& final(cache).spec_enabled()
                        &&& final(cache).spec_generation() == old(cache).spec_generation()
                        &&& old(cache).spec_strings().is_prefix_of(final(cache).spec_strings())
                        &&& final(cache).spec_strings().len() <= old(cache).spec_strings().len() + self.rev_map().categories_view().len()
                        &&& e.rev_map().categories_view() == self.rev_map().categories_view()
                        &&& e.rev_map() matches RevMapping::Global(m, _, gen) && gen == final(cache).spec_generation()
                            && maps_cache_codes(m@, e.rev_map().categories_view(), final(cache).spec_strings())
                        &&& forall|i: int| 0 <= i < self.codes().len() ==> match #[trigger] self.codes()[i] {
                            Some(c) => e.codes()[i] matches Some(k) && (k as int) < final(cache).spec_strings().len()
                                && final(cache).spec_strings()[k as int] == self.rev_map().resolve(c),
                            None => e.codes()[i] is None,
                        }
                    }
                    &&& !(self.spec_is_enum() && rm is None) ==> e.codes() == self.codes()
                        && same_mapping(e.rev_map(), self.rev_map())
                        && e.spec_is_enum() == self.spec_is_enum()
                        && e.spec_fast_unique() == self.spec_fast_unique()
                },
            },
    {
        match dtype {
            DataType::String => {
                let rm = self.get_rev_map();
                let values = self.physical.values();
                let mut out: Vec<Option<String>> = Vec::new();
                let mut i: usize = 0;
                while i < values.len()
                    invariant
                        i <= values@.len(),
                        values@ == self.codes(),
                        self.is_valid(),
                        *rm == self.rev_map(),
                        out@.len() == i,
                        forall|j: int| 0 <= j < i ==> out.deep_view()[j] == self.decoded()[j],
                    decreases values@.len() - i,
                {
                    let ghost before = out.deep_view();
                    match values[i] {
                        Some(c) => {
                            assert(values@[i as int] is Some);
                            out.push(Some(rm.get(c).to_string()));
                        },
                        None => out.push(None),
                    }
                    assert(out.deep_view() =~= before.push(self.decoded()[i as int]));
                    i += 1;
                }
                assert(out.deep_view() =~= self.decoded());
                Ok(Series::String(StringChunked::new(self.physical.name().clone(), out)))
            },
            DataType::UInt32 => Ok(Series::UInt32(self.physical.duplicate())),
            DataType::Int64 => self.cast_to_i64(options),
            DataType::Enum(Some(rm), ordering) => match rm {
                RevMapping::Local(categories, hash) => {
                    let e = self.to_enum(categories, *hash).set_ordering(*ordering, true);
                    Ok(Series::Categorical(e))
                },
                RevMapping::Global(..) => Err(PolarsError::EnumWithGlobalMapping),
            },
            DataType::Enum(None, _) => Err(PolarsError::EnumWithoutCategories),
            DataType::Categorical(rm, ordering) => {
                if self.is_enum() && rm.is_none() {
                    if cache.is_enabled() {
                        return match self.to_global(cache) {
                            Ok(g) => Ok(Series::Categorical(g.set_ordering(*ordering, true))),
                            Err(e) => Err(e),
                        };
                    } else {
                        return Ok(Series::Categorical(self.to_local().set_ordering(*ordering, true)));
                    }
                }
                let ca = self.duplicate();
                proof {
                    lemma_same_dtype_valid(self.codes(), ca.dtype, self.dtype, self.fast_unique);
                }
                Ok(Series::Categorical(ca.set_ordering(*ordering, true)))
            },
        }
    }

    /// Number of distinct categories that the rows use. Nulls are not
    /// counted: the answer is a count of categories, which the fast path
    /// reads off the mapping.
    /// Read off the mapping where the fast-unique flag allows it, else found
    /// by a scan of the codes.
    pub fn n_unique(&self) -> (r: usize)
        requires
            self.is_valid(),
        ensures
            r == used_positions(self.codes(), self.rev_map()).len(),
            self.spec_can_fast_unique() ==> r == self.rev_map().categories_view().len(),
    {
        let rm = self.get_rev_map();
        let n = rm.len();
        if self._can_fast_unique() {
            proof {
                lemma_fast_unique_count(*self);
            }
            return n;
        }
        let values = self.physical.values();
        let mut seen: Vec<bool> = vec![false; n];
        let mut count: usize = 0;
        let mut i: usize = 0;
        proof {
            vstd::set_lib::lemma_int_range(0, n as int);
            assert(seen_set(seen@) =~= used_positions(self.codes().take(0), self.rev_map()));
            assert(seen_set(seen@) =~= Set::<int>::empty());
        }
        while i < values.len()
            invariant
                i <= values@.len(),
                values@ == self.codes(),
                self.is_valid(),
                *rm == self.rev_map(),
                n == rm.categories_view().len(),
                seen@.len() == n,
                seen_set(seen@).subset_of(vstd::set_lib::set_int_range(0, n as int)),
                vstd::set_lib::set_int_range(0, n as int).finite(),
                vstd::set_lib::set_int_range(0, n as int).len() == n,
                seen_set(seen@).finite(),
                count == seen_set(seen@).len(),
                seen_set(seen@) == used_positions(self.codes().take(i as int), self.rev_map()),
            decreases values@.len() - i,
        {
            let ghost before = seen_set(seen@);
            match values[i] {
                Some(c) => {
                    assert(values@[i as int] is Some);
                    let p = rm.position_of(c) as usize;
                    if !seen[p] {
                        seen.set(p, true);
                        assert(seen_set(seen@) =~= before.insert(p as int));
                        proof {
                            vstd::set_lib::lemma_len_subset(before, vstd::set_lib::set_int_range(0, n as int));
                            vstd::set_lib::lemma_len_subset(seen_set(seen@), vstd::set_lib::set_int_range(0, n as int));
                        }
                        count = count + 1;
                    } else {
                        assert(seen_set(seen@) =~= before.insert(p as int));
                    }
                },
                None => {},
            }
            proof {
                let next = used_positions(self.codes().take(i + 1), self.rev_map());
                let prev = used_positions(self.codes().take(i as int), self.rev_map());
                assert forall|q: int| next.contains(q) <==> seen_set(seen@).contains(q) by {
                    if next.contains(q) {
                        let j = choose|j: int| 0 <= j < i + 1 && #[trigger] self.codes().take(i + 1)[j] is Some
                            && self.rev_map().position(self.codes().take(i + 1)[j]->0) == q;
                        if j < i {
                            assert(self.codes().take(i as int)[j] is Some);
                            assert(prev.contains(q));
                        }
                    }
                    if seen_set(seen@).contains(q) && !before.contains(q) {
                        assert(self.codes().take(i + 1)[i as int] is Some);
                    }
                    if prev.contains(q) {
                        let j = choose|j: int| 0 <= j < i && #[trigger] self.codes().take(i as int)[j] is Some
                            && self.rev_map().position(self.codes().take(i as int)[j]->0) == q;
                        assert(self.codes().take(i + 1)[j] is Some);
                    }
                }
                assert(seen_set(seen@) =~= next);
            }
            i += 1;
        }
        assert(self.codes().take(i as int) =~= self.codes());
        count
    }

    /// The rows at `indices`, in that order, under the same mapping; the
    /// fast-unique flag is cleared.
    pub fn take(&self, indices: &Vec<usize>) -> (r: Self)
        requires
            self.is_valid(),
            forall|k: int| 0 <= k < indices@.len() ==> indices@[k] < self.codes().len(),
        ensures
            r.is_valid(),
            !r.spec_fast_unique(),
            same_dtype(r.spec_dtype(), self.spec_dtype()),
            r.spec_name() == self.spec_name(),
            r.codes().len() == indices@.len(),
            forall|k: int| 0 <= k < indices@.len() ==> r.codes()[k] == self.codes()[indices@[k] as int],
            forall|k: int| 0 <= k < indices@.len() ==> r.decoded()[k] == self.decoded()[indices@[k] as int],
    {
        let r = CategoricalChunked {
            physical: self.physical.take(indices),
            dtype: self.dtype.duplicate(),
            fast_unique: false,
        };
        proof {
            lemma_same_dtype_valid(r.codes(), r.dtype, self.dtype, false);
            assert forall|t: int| 0 <= t < r.codes().len() && #[trigger] r.codes()[t] is Some
                implies self.rev_map().is_code(r.codes()[t]->0) by {
                assert(self.codes()[indices@[t] as int] is Some);
            }
        }
        r
    }

    /// The rows `offset .. offset + length`, clamped to the column, under the
    /// same mapping; the fast-unique flag is cleared.
    pub fn slice(&self, offset: usize, length: usize) -> (r: Self)
        requires
            self.is_valid(),
        ensures
            r.is_valid(),
            !r.spec_fast_unique(),
            same_dtype(r.spec_dtype(), self.spec_dtype()),
            r.spec_name() == self.spec_name(),
            r.codes() == self.spec_physical().slice_values(offset, length),
    {
        let r = CategoricalChunked {
            physical: self.physical.slice(offset, length),
            dtype: self.dtype.duplicate(),
            fast_unique: false,
        };
        proof {
            lemma_same_dtype_valid(r.codes(), r.dtype, self.dtype, false);
            let n = self.codes().len();
            let start = if offset <= n { offset as int } else { n as int };
            assert forall|t: int| 0 <= t < r.codes().len() && #[trigger] r.codes()[t] is Some
                implies self.rev_map().is_code(r.codes()[t]->0) by {
                assert(self.codes()[start + t] is Some);
            }
        }
        r
    }

    /// Append the rows of `other`. Two global columns of one cache generation
    /// merge their mappings; two local columns with equal hashes and as many
    /// categories keep the mapping; anything else fails. The fast-unique flag
    /// is cleared.
    pub fn append(&mut self, other: &CategoricalChunked) -> (r: Result<(), PolarsError>)
        requires
            old(self).is_valid(),
            other.is_valid(),
            old(self).spec_physical().spec_n_chunks() + other.spec_physical().spec_n_chunks() <= usize::MAX,
            old(self).rev_map().categories_view().len() + other.codes().len() <= u32::MAX,
        ensures
            final(self).is_valid(),
            r is Ok <==> appendable(old(self).rev_map(), other.rev_map(), other.codes()),
            r is Err ==> r == Err::<(), PolarsError>(PolarsError::StringCacheMismatch) && *final(self) == *old(self),
            r is Ok ==> {
                &&& final(self).codes() == old(self).codes() + other.codes()
                &&& !final(self).spec_fast_unique()
                &&& final(self).spec_name() == old(self).spec_name()
                &&& final(self).ordering() == old(self).ordering()
                &&& final(self).spec_is_enum() == old(self).spec_is_enum()
            },
            r is Ok && old(self).rev_map().is_local() ==> same_mapping(final(self).rev_map(), old(self).rev_map()),
            r is Ok && !old(self).rev_map().is_local() ==> final(self).decoded() == old(self).decoded() + other.decoded(),
    {
        let ghost s0 = *self;
        let ordering = self.get_ordering();
        let is_enum = self.is_enum();
        let orm = other.get_rev_map();
        let srm = self.get_rev_map();
        match (srm, orm) {
            (RevMapping::Local(c1, h1), RevMapping::Local(c2, h2)) => {
                if *h1 != *h2 || c1.len() != c2.len() {
                    return Err(PolarsError::StringCacheMismatch);
                }
                self.physical.append(&other.physical);
                self.fast_unique = false;
                assert forall|t: int| 0 <= t < self.codes().len() && #[trigger] self.codes()[t] is Some
                    implies self.rev_map().is_code(self.codes()[t]->0) by {
                    if t >= s0.codes().len() {
                        assert(other.codes()[t - s0.codes().len()] is Some);
                    } else {
                        assert(s0.codes()[t] is Some);
                    }
                }
                Ok(())
            },
            (RevMapping::Global(m1, c1, g1), RevMapping::Global(_, _, g2)) => {
                if *g1 != *g2 {
                    return Err(PolarsError::StringCacheMismatch);
                }
                let mut map = m1.duplicate();
                let cl = c1.clone();
                assert(cl@ =~= c1@);
                let mut cats = cl;
                let gen = *g1;
                let values = other.physical.values();
                let mut i: usize = 0;
                while i < values.len()
                    invariant
                        i <= values@.len(),
                        values@ == other.codes(),
                        other.is_valid(),
                        s0.is_valid(),
                        *self == s0,
                        *orm == other.rev_map(),
                        s0.rev_map() matches RevMapping::Global(sm, sc, _) && sm@ == m1@ && sc@ == c1@,
                        cats@.len() <= c1@.len() + i,
                        c1@.len() + values@.len() <= u32::MAX,
                        c1@.is_prefix_of(cats@),
                        distinct_categories(cats.deep_view()),
                        forall|k: u32| #[trigger] map@.contains_key(k) ==> (map@[k] as int) < cats@.len(),
                        forall|k: u32| #[trigger] m1@.contains_key(k) ==> (m1@[k] as int) < c1@.len(),
                        forall|k: u32| #[trigger] m1@.contains_key(k) ==> map@.contains_key(k) && map@[k] == m1@[k],
                        forall|k: u32| #[trigger] map@.contains_key(k) && !m1@.contains_key(k) ==> cats@[map@[k] as int]@ == orm.resolve(k),
                        forall|t: int| 0 <= t < i && #[trigger] values@[t] is Some && m1@.contains_key(values@[t]->0)
                            ==> c1@[m1@[values@[t]->0] as int]@ == orm.resolve(values@[t]->0),
                        forall|t: int| 0 <= t < i && #[trigger] values@[t] is Some ==> map@.contains_key(values@[t]->0)
                            && cats@[map@[values@[t]->0] as int]@ == orm.resolve(values@[t]->0),
                    decreases values@.len() - i,
                {
                    if let Some(k) = values[i] {
                        assert(values@[i as int] is Some);
                        let s = orm.get(k);
                        let found = map.get(k);
                        assert(found is Some ==> map@.contains_key(k) && map@[k] == found->0);
                        assert(found is None ==> !map@.contains_key(k));
                        if let Some(q) = found {
                            if !same_text(cats[q as usize].as_str(), s) {
                                proof {
                                    assert(m1@.contains_key(k));
                                    assert(cats@[m1@[k] as int] == c1@[m1@[k] as int]);
                                    assert(!appendable(s0.rev_map(), other.rev_map(), other.codes()));
                                }
                                return Err(PolarsError::StringCacheMismatch);
                            }
                        } else {
                            assert(!m1@.contains_key(k));
                            let ghost map_before = map@;
                            match find_category(&cats, s) {
                                Some(q) => {
                                    map.insert(k, q);
                                    assert(map@ == map_before.insert(k, q));
                                },
                                None => {
                                    let q = cats.len() as u32;
                                    let ghost before = cats.deep_view();
                                    let ghost before_v = cats@;
                                    cats.push(s.to_string());
                                    assert(cats.deep_view() =~= before.push(s@));
                                    assert(c1@.is_prefix_of(cats@)) by {
                                        assert forall|z: int| 0 <= z < c1@.len() implies cats@[z] == c1@[z] by {
                                            assert(before_v[z] == c1@[z]);
                                        }
                                    }
                                    map.insert(k, q);
                                    assert(map@ == map_before.insert(k, q));
                                },
                            }
                            assert forall|k2: u32| #[trigger] m1@.contains_key(k2) implies map@.contains_key(k2)
                                && map@[k2] == m1@[k2] by {
                                assert(k2 != k);
                                assert(map_before.contains_key(k2));
                            }
                        }
                    }
                    i += 1;
                }
                self.physical.append(&other.physical);
                self.dtype = if is_enum {
                    DataType::Enum(Some(RevMapping::Global(map, cats, gen)), ordering)
                } else {
                    DataType::Categorical(Some(RevMapping::Global(map, cats, gen)), ordering)
                };
                self.fast_unique = false;
                let ghost n0 = s0.codes().len();
                assert forall|t: int| 0 <= t < self.codes().len() implies
                    (#[trigger] self.codes()[t] is Some ==> self.rev_map().is_code(self.codes()[t]->0))
                    && self.decoded()[t] == (s0.decoded() + other.decoded())[t] by {
                    if t >= n0 {
                        if other.codes()[t - n0] is Some {
                            assert(values@[t - n0] is Some);
                        }
                    } else {
                        if s0.codes()[t] is Some {
                            let k = s0.codes()[t]->0;
                            assert(m1@.contains_key(k));
                            assert(map@.contains_key(k));
                            assert(cats@[map@[k] as int] == c1@[m1@[k] as int]);
                        }
                    }
                }
                assert(self.decoded() =~= s0.decoded() + other.decoded());
                Ok(())
            },
            _ => Err(PolarsError::StringCacheMismatch),
        }
    }
}

/// The strings of a categorical column, read lazily from both ends.
pub struct CatIter<'a> {
    rev: &'a RevMapping,
    values: &'a Vec<Option<u32>>,
    front: usize,
    back: usize,
}

impl<'a> CatIter<'a> {
    pub closed spec fn valid(&self) -> bool {
        &&& self.front <= self.back <= self.values@.len()
        &&& codes_valid(self.values@, *self.rev)
    }

    /// The strings not yet handed out, in order.
    pub closed spec fn remaining(&self) -> Seq<Option<Seq<char>>> {
        decode(self.values@, *self.rev).subrange(self.front as int, self.back as int)
    }

    /// The next string from the front: `None` once all are out.
    pub fn next(&mut self) -> (r: Option<Option<&'a str>>)
        requires
            old(self).valid(),
        ensures
            final(self).valid(),
            old(self).remaining().len() == 0 ==> r is None && final(self).remaining() == old(self).remaining(),
            old(self).remaining().len() > 0 ==> (r matches Some(v) && final(self).remaining() == old(self).remaining().drop_first()
                && match v {
                    Some(s) => old(self).remaining()[0] == Some(s@),
                    None => old(self).remaining()[0] is None,
                }),
    {
        if self.front == self.back {
            return None;
        }
        let v = self.values[self.front];
        let ghost f = self.front as int;
        self.front = self.front + 1;
        assert(self.remaining() =~= old(self).remaining().drop_first());
        match v {
            Some(c) => {
                assert(self.values@[f] is Some);
                Some(Some(self.rev.get(c)))
            },
            None => Some(None),
        }
    }

    /// The next string from the back: `None` once all are out.
    pub fn next_back(&mut self) -> (r: Option<Option<&'a str>>)
        requires
            old(self).valid(),
        ensures
            final(self).valid(),
            old(self).remaining().len() == 0 ==> r is None && final(self).remaining() == old(self).remaining(),
            old(self).remaining().len() > 0 ==> (r matches Some(v) && final(self).remaining() == old(self).remaining().drop_last()
                && match v {
                    Some(s) => old(self).remaining().last() == Some(s@),
                    None => old(self).remaining().last() is None,
                }),
    {
        if self.front == self.back {
            return None;
        }
        self.back = self.back - 1;
        let v = self.values[self.back];
        let ghost b = self.back as int;
        assert(self.remaining() =~= old(self).remaining().drop_last());
        match v {
            Some(c) => {
                assert(self.values@[b] is Some);
                Some(Some(self.rev.get(c)))
            },
            None => Some(None),
        }
    }

    /// The exact number of strings left, as lower and upper bound.
    pub fn size_hint(&self) -> (r: (usize, Option<usize>))
        requires
            self.valid(),
        ensures
            r.0 == self.remaining().len(),
            r.1 == Some(self.remaining().len() as usize),
    {
        let n = self.back - self.front;
        (n, Some(n))
    }
}

} // verus!
