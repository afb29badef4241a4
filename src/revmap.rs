use std::collections::hash_map::DefaultHasher;
use polars_utils::aliases::PlHashMap;
use std::hash::Hasher;
use vstd::prelude::*;
use vstd::std_specs::hash::DefaultHasherAdditionalSpecFns;
use vstd::utf8::encode_utf8;

verus! {

/// The position among a global mapping's categories of each cache code.
#[verifier::external_body]
#[derive(Debug)]
pub struct CodeMap {
    inner: PlHashMap<u32, u32>,
}

/// What a code map holds: cache code to position.
pub uninterp spec fn code_map_contents(m: CodeMap) -> Map<u32, u32>;

impl View for CodeMap {
    type V = Map<u32, u32>;

    open spec fn view(&self) -> Map<u32, u32> {
        code_map_contents(*self)
    }
}

impl Clone for CodeMap {
    /// Relies on `Clone` for `hashbrown::HashMap`.
    #[verifier::external_body]
    fn clone(&self) -> (r: CodeMap)
        ensures
            code_map_contents(r) == code_map_contents(*self),
    {
        CodeMap { inner: self.inner.clone() }
    }
}

impl CodeMap {
    /// Relies on `Default` for `hashbrown::HashMap`: a new map is empty.
    #[verifier::external_body]
    pub(crate) fn new() -> (r: CodeMap)
        ensures
            forall|k: u32| !code_map_contents(r).contains_key(k),
    {
        CodeMap { inner: PlHashMap::default() }
    }

    /// Relies on `hashbrown::HashMap::get`: the value stored for the key, if any.
    #[verifier::external_body]
    pub(crate) fn get(&self, code: u32) -> (r: Option<u32>)
        ensures
            match r {
                Some(v) => code_map_contents(*self).contains_key(code) && code_map_contents(*self)[code] == v,
                None => !code_map_contents(*self).contains_key(code),
            },
    {
        self.inner.get(&code).copied()
    }

    /// Relies on `hashbrown::HashMap::insert`: the key now maps to the value,
    /// every other key is unchanged.
    #[verifier::external_body]
    pub(crate) fn insert(&mut self, code: u32, pos: u32)
        ensures
            code_map_contents(*final(self)) == code_map_contents(*old(self)).insert(code, pos),
    {
        self.inner.insert(code, pos);
    }

    /// A copy holding the same pairs.
    pub(crate) fn duplicate(&self) -> (r: CodeMap)
        ensures
            r@ == self@,
    {
        self.clone()
    }
}

/// How the values of a categorical column compare.
#[derive(Clone, Copy, Debug, PartialEq, Eq, Structural)]
pub enum CategoricalOrdering {
    /// By code.
    Physical,
    /// By the category strings.
    Lexical,
}

/// The dictionary of a categorical column: from code to category string.
#[derive(Clone, Debug)]
pub enum RevMapping {
    /// Codes are string cache codes: `code -> position in categories`, the
    /// categories, and the cache generation the mapping was built against.
    Global(CodeMap, Vec<String>, u32),
    /// Codes are positions in the categories; the second field is the
    /// content hash of the categories.
    Local(Vec<String>, u128),
}

/// The writes that hash a sequence of categories: the UTF-8 bytes of each
/// category, then a `0xff` byte, which no UTF-8 text holds, so that no two
/// different sequences feed the hasher the same byte stream.
pub open spec fn hash_writes(cats: Seq<Seq<char>>) -> Seq<Seq<u8>>
    decreases cats.len(),
{
    if cats.len() == 0 {
        Seq::empty()
    } else {
        hash_writes(cats.drop_last()).push(encode_utf8(cats.last())).push(seq![0xffu8])
    }
}

/// The 128-bit content hash of a sequence of categories: the high half from
/// a fresh `DefaultHasher` fed `hash_writes`, the low half from one fed a
/// `1` byte first.
pub open spec fn content_hash(cats: Seq<Seq<char>>) -> u128 {
    (DefaultHasher::spec_finish(hash_writes(cats)) as int * 0x1_0000_0000_0000_0000
        + DefaultHasher::spec_finish(seq![seq![1u8]] + hash_writes(cats)) as int) as u128
}

/// No category occurs twice.
pub open spec fn distinct_categories(cats: Seq<Seq<char>>) -> bool {
    forall|i: int, j: int| 0 <= i < j < cats.len() ==> cats[i] != cats[j]
}

/// Relies on `<str as PartialEq>::eq`: two string slices are equal exactly
/// when they hold the same characters.
#[verifier::external_body]
pub(crate) fn same_text(a: &str, b: &str) -> (r: bool)
    ensures
        r == (a@ == b@),
{
    a == b
}

/// Looks `s` up in `cats`.
pub fn find_category(cats: &Vec<String>, s: &str) -> (r: Option<u32>)
    requires
        cats@.len() <= u32::MAX,
    ensures
        match r {
            Some(i) => i < cats@.len() && cats@[i as int]@ == s@
                && forall|j: int| 0 <= j < i ==> cats@[j]@ != s@,
            None => forall|j: int| 0 <= j < cats@.len() ==> cats@[j]@ != s@,
        },
{
    let mut i: usize = 0;
    while i < cats.len()
        invariant
            i <= cats@.len() <= u32::MAX,
            forall|j: int| 0 <= j < i ==> cats@[j]@ != s@,
        decreases cats@.len() - i,
    {
        if same_text(cats[i].as_str(), s) {
            return Some(i as u32);
        }
        i += 1;
    }
    None
}

/// `a` and `b` hold the same mapping: one is a clone of the other.
pub open spec fn same_mapping(a: RevMapping, b: RevMapping) -> bool {
    match (a, b) {
        (RevMapping::Global(m1, c1, g1), RevMapping::Global(m2, c2, g2)) => m1@ == m2@ && c1@ == c2@ && g1 == g2,
        (RevMapping::Local(c1, h1), RevMapping::Local(c2, h2)) => c1@ == c2@ && h1 == h2,
        _ => false,
    }
}

impl RevMapping {
    /// A copy of this mapping.
    pub fn duplicate(&self) -> (r: RevMapping)
        ensures
            same_mapping(r, *self),
    {
        match self {
            RevMapping::Global(m, c, g) => {
                let c2 = c.clone();
                assert(c2@ =~= c@);
                RevMapping::Global(m.duplicate(), c2, *g)
            },
            RevMapping::Local(c, h) => {
                let c2 = c.clone();
                assert(c2@ =~= c@);
                RevMapping::Local(c2, *h)
            },
        }
    }

    /// Every key of a global mapping points into the categories.
    pub open spec fn well_formed(&self) -> bool {
        match self {
            RevMapping::Global(m, c, _) => forall|k: u32| #[trigger] m@.contains_key(k) ==> (m@[k] as int) < c@.len(),
            RevMapping::Local(_, _) => true,
        }
    }

    /// No category occurs twice.
    pub open spec fn has_distinct_categories(&self) -> bool {
        distinct_categories(self.categories_view())
    }

    /// The position in the categories that `code` resolves through.
    pub open spec fn position(&self, code: u32) -> int {
        match self {
            RevMapping::Global(m, _, _) => m@[code] as int,
            RevMapping::Local(_, _) => code as int,
        }
    }

    /// The categories, in order.
    pub open spec fn categories_view(&self) -> Seq<Seq<char>> {
        match self {
            RevMapping::Global(_, c, _) => c.deep_view(),
            RevMapping::Local(c, _) => c.deep_view(),
        }
    }

    pub open spec fn is_local(&self) -> bool {
        self is Local
    }

    /// `code` is a key of this mapping that resolves to a category.
    pub open spec fn is_code(&self, code: u32) -> bool {
        match self {
            RevMapping::Global(m, c, _) => m@.contains_key(code) && (m@[code] as int) < c@.len(),
            RevMapping::Local(c, _) => (code as int) < c@.len(),
        }
    }

    /// The category that `code` stands for.
    pub open spec fn resolve(&self, code: u32) -> Seq<char> {
        match self {
            RevMapping::Global(m, c, _) => c@[m@[code] as int]@,
            RevMapping::Local(c, _) => c@[code as int]@,
        }
    }

    /// Build a local mapping over `categories`, with their content hash.
    pub fn build_local(categories: Vec<String>) -> (r: RevMapping)
        ensures
            r == RevMapping::Local(categories, content_hash(categories.deep_view())),
    {
        let mut high = DefaultHasher::new();
        let mut low = DefaultHasher::new();
        let seed: Vec<u8> = vec![1u8];
        low.write(seed.as_slice());
        let end: Vec<u8> = vec![0xffu8];
        let ghost cats = categories.deep_view();
        let mut i: usize = 0;
        assert(seed@ =~= seq![1u8]);
        assert(end@ =~= seq![0xffu8]);
        assert(hash_writes(cats.take(0)) =~= Seq::<Seq<u8>>::empty());
        assert(low@ =~= seq![seq![1u8]] + hash_writes(cats.take(0)));
        while i < categories.len()
            invariant
                i <= categories@.len(),
                cats == categories.deep_view(),
                end@ == seq![0xffu8],
                high@ == hash_writes(cats.take(i as int)),
                low@ == seq![seq![1u8]] + hash_writes(cats.take(i as int)),
            decreases categories@.len() - i,
        {
            let bytes = categories[i].as_str().as_bytes_vec();
            high.write(bytes.as_slice());
            high.write(end.as_slice());
            low.write(bytes.as_slice());
            low.write(end.as_slice());
            assert(cats.take(i + 1).drop_last() == cats.take(i as int));
            assert(hash_writes(cats.take(i + 1)) == hash_writes(cats.take(i as int)).push(encode_utf8(cats[i as int])).push(seq![0xffu8]));
            assert(low@ =~= seq![seq![1u8]] + hash_writes(cats.take(i + 1)));
            i += 1;
        }
        assert(cats.take(i as int) == cats);
        let a = high.finish();
        let b = low.finish();
        assert((a as int) * 0x1_0000_0000_0000_0000 + (b as int) <= u128::MAX) by (nonlinear_arith)
            requires
                a <= u64::MAX,
                b <= u64::MAX,
        ;
        let h = (a as u128) * 0x1_0000_0000_0000_0000u128 + (b as u128);
        RevMapping::Local(categories, h)
    }

    /// The categories, in order.
    pub fn get_categories(&self) -> (r: &Vec<String>)
        ensures
            r.deep_view() == self.categories_view(),
    {
        match self {
            RevMapping::Global(_, c, _) => c,
            RevMapping::Local(c, _) => c,
        }
    }

    /// Number of categories.
    pub fn len(&self) -> (r: usize)
        ensures
            r == self.categories_view().len(),
    {
        self.get_categories().len()
    }

    pub fn is_global(&self) -> (r: bool)
        ensures
            r == !self.is_local(),
    {
        matches!(self, RevMapping::Global(..))
    }

    /// The position in the categories of a code that belongs to this mapping.
    pub fn position_of(&self, code: u32) -> (r: u32)
        requires
            self.is_code(code),
        ensures
            r as int == self.position(code),
            (r as int) < self.categories_view().len(),
    {
        match self {
            RevMapping::Global(m, _, _) => m.get(code).unwrap(),
            RevMapping::Local(_, _) => code,
        }
    }

    /// The category of a code that belongs to this mapping.
    pub fn get(&self, code: u32) -> (r: &str)
        requires
            self.is_code(code),
        ensures
            r@ == self.resolve(code),
    {
        match self {
            RevMapping::Global(m, c, _) => {
                let pos = m.get(code).unwrap();
                c[pos as usize].as_str()
            },
            RevMapping::Local(c, _) => c[code as usize].as_str(),
        }
    }

    /// The category of `code`, or `None` where `code` is not one of this mapping.
    pub fn get_optional(&self, code: u32) -> (r: Option<&str>)
        ensures
            match r {
                Some(s) => self.is_code(code) && s@ == self.resolve(code),
                None => !self.is_code(code),
            },
    {
        match self {
            RevMapping::Global(m, c, _) => match m.get(code) {
                Some(pos) => {
                    if (pos as usize) < c.len() {
                        Some(c[pos as usize].as_str())
                    } else {
                        None
                    }
                },
                None => None,
            },
            RevMapping::Local(c, _) => {
                if (code as usize) < c.len() {
                    Some(c[code as usize].as_str())
                } else {
                    None
                }
            },
        }
    }

    /// The position of `s` among the categories, if present.
    pub fn find(&self, s: &str) -> (r: Option<u32>)
        requires
            self.categories_view().len() <= u32::MAX,
        ensures
            match r {
                Some(i) => i < self.categories_view().len() && self.categories_view()[i as int] == s@,
                None => forall|j: int| 0 <= j < self.categories_view().len() ==> self.categories_view()[j] != s@,
            },
    {
        find_category(self.get_categories(), s)
    }
}

} // verus!
