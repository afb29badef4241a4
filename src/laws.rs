use vstd::prelude::*;
use crate::categorical::{
    appendable, codes_valid, encodes, enum_codes, index_in, maps_cache_codes, string_cast_of,
    CategoricalChunked,
};
use crate::revmap::RevMapping;
use crate::string_cache::StringCache;
use crate::chunked::StringChunked;

verus! {

/// Encoding a string column as categories and decoding it back to strings
/// gives the original values, nulls in place, and the original name.
pub proof fn lemma_string_round_trip(s: StringChunked, col: CategoricalChunked, back: StringChunked)
    requires
        encodes(col, s),
        string_cast_of(back, col),
    ensures
        back.spec_values() == s.spec_values(),
        back.spec_name() == s.spec_name(),
{
}

/// Converting to an enum over the column's own local categories gives every
/// row the code it already has: the lookup path agrees with the path that
/// keeps the codes when the hashes match.
pub proof fn lemma_enum_paths_agree(col: CategoricalChunked)
    requires
        col.is_valid(),
        col.rev_map().is_local(),
    ensures
        enum_codes(col.codes(), col.rev_map(), col.rev_map().categories_view()) == col.codes(),
{
    let cats = col.rev_map().categories_view();
    assert forall|i: int| 0 <= i < col.codes().len() implies
        enum_codes(col.codes(), col.rev_map(), cats)[i] == col.codes()[i] by {
        if col.codes()[i] is Some {
            let c = col.codes()[i]->0;
            let s = col.rev_map().resolve(c);
            assert(cats[c as int] == s);
            let w = choose|j: int| 0 <= j < cats.len() && cats[j] == s;
            assert(w == c as int);
            assert(index_in(cats, s) == Some(c));
        }
    }
    assert(enum_codes(col.codes(), col.rev_map(), cats) =~= col.codes());
}

/// Converting to global and then to local decodes to the same strings as
/// converting to local directly: each conversion keeps the decoded rows.
pub proof fn lemma_global_round_trip(
    x: CategoricalChunked,
    global: CategoricalChunked,
    local_of_x: CategoricalChunked,
    local_of_global: CategoricalChunked,
)
    requires
        global.decoded() == x.decoded(),
        local_of_x.decoded() == x.decoded(),
        local_of_global.decoded() == global.decoded(),
    ensures
        local_of_global.decoded() == local_of_x.decoded(),
{
}

/// Cache codes are stable: while a cache only grows, a string keeps the one
/// code it was given.
pub proof fn lemma_stable_codes(earlier: StringCache, later: StringCache, k1: u32, k2: u32)
    requires
        later.well_formed(),
        earlier.spec_strings().is_prefix_of(later.spec_strings()),
        (k1 as int) < earlier.spec_strings().len(),
        (k2 as int) < later.spec_strings().len(),
        earlier.spec_strings()[k1 as int] == later.spec_strings()[k2 as int],
    ensures
        k1 == k2,
{
    let s = later.spec_strings();
    assert(s[k1 as int] == earlier.spec_strings()[k1 as int]);
    if k1 < k2 {
        assert(s[k1 as int] != s[k2 as int]);
    } else if k2 < k1 {
        assert(s[k2 as int] != s[k1 as int]);
    }
}

/// Two columns converted to global through one cache, the first while the
/// cache held `earlier` and the second leaving it at `later`, can be
/// appended: the codes they share stand for the same strings.
pub proof fn lemma_globals_appendable(
    a: CategoricalChunked,
    b: CategoricalChunked,
    earlier: StringCache,
    later: StringCache,
)
    requires
        b.is_valid(),
        earlier.spec_strings().is_prefix_of(later.spec_strings()),
        a.rev_map() matches RevMapping::Global(m, _, g) && maps_cache_codes(m@, a.rev_map().categories_view(), earlier.spec_strings())
            && g == later.spec_generation(),
        b.rev_map() matches RevMapping::Global(m, _, g) && maps_cache_codes(m@, b.rev_map().categories_view(), later.spec_strings())
            && g == later.spec_generation(),
    ensures
        appendable(a.rev_map(), b.rev_map(), b.codes()),
{
    if let RevMapping::Global(m1, c1, _) = a.rev_map() {
        if let RevMapping::Global(m2, c2, _) = b.rev_map() {
            assert forall|t: int| 0 <= t < b.codes().len() && #[trigger] b.codes()[t] is Some
                && m1@.contains_key(b.codes()[t]->0)
                implies c1@[m1@[b.codes()[t]->0] as int]@ == b.rev_map().resolve(b.codes()[t]->0) by {
                let k = b.codes()[t]->0;
                assert(codes_valid(b.codes(), b.rev_map()));
                assert(m1@.contains_key(k));
                assert(m2@.contains_key(k));
                assert(a.rev_map().categories_view()[m1@[k] as int] == c1@[m1@[k] as int]@);
                assert(b.rev_map().categories_view()[m2@[k] as int] == c2@[m2@[k] as int]@);
                assert(earlier.spec_strings()[k as int] == later.spec_strings()[k as int]);
            }
        }
    }
}

} // verus!
