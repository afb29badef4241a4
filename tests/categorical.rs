use polars_categorical::categorical::{AnyValue, CastOptions, CategoricalChunked, DataType, Series};
use polars_categorical::chunked::{IsSorted, StringChunked, UInt32Chunked};
use polars_categorical::error::PolarsError;
use polars_categorical::revmap::{CategoricalOrdering, RevMapping};
use polars_categorical::string_cache::StringCache;

fn strings(name: &str, values: &[Option<&str>]) -> StringChunked {
    StringChunked::new(name.to_string(), values.iter().map(|v| v.map(|s| s.to_string())).collect())
}

fn categorical(name: &str, values: &[&str]) -> CategoricalChunked {
    let values: Vec<Option<&str>> = values.iter().map(|s| Some(*s)).collect();
    CategoricalChunked::from_strings(&strings(name, &values), CategoricalOrdering::Physical)
}

fn as_strings(ca: &CategoricalChunked, cache: &mut StringCache) -> Vec<Option<String>> {
    match ca.cast_with_options(&DataType::String, CastOptions::NonStrict, cache).unwrap() {
        Series::String(s) => s.values().clone(),
        _ => panic!("expected a string column"),
    }
}

fn str_value(ca: &CategoricalChunked, i: usize) -> String {
    let mut cache = StringCache::new();
    as_strings(ca, &mut cache)[i].clone().unwrap()
}

#[test]
fn test_categorical_round_trip() {
    let mut cache = StringCache::new();
    cache.disable();
    let slice = &[Some("foo"), None, Some("bar"), Some("foo"), Some("foo"), Some("bar")];
    let ca = CategoricalChunked::from_strings(&strings("a", slice), CategoricalOrdering::Physical);
    let s = match ca
        .cast_with_options(&DataType::Categorical(None, CategoricalOrdering::Physical), CastOptions::NonStrict, &mut cache)
        .unwrap()
    {
        Series::Categorical(s) => s,
        _ => panic!("expected a categorical column"),
    };
    assert!(matches!(s.dtype(), &DataType::Categorical(_, _)));
    assert_eq!(s.null_count(), 1);
    assert_eq!(s.len(), 6);
}

#[test]
fn test_append_categorical() {
    let mut cache = StringCache::new();
    cache.disable();
    cache.enable();

    let mut s1 = categorical("1", &["a", "b", "c"]).to_global(&mut cache).unwrap();
    let s2 = categorical("2", &["a", "x", "y"]).to_global(&mut cache).unwrap();
    s1.append(&s2).unwrap();
    assert_eq!(str_value(&s1, 0), "a");
    assert_eq!(str_value(&s1, 1), "b");
    assert_eq!(str_value(&s1, 4), "x");
    assert_eq!(str_value(&s1, 5), "y");
}

#[test]
fn test_fast_unique() {
    let s = categorical("1", &["a", "b", "c"]);

    assert_eq!(s.n_unique(), 3);
    // Make sure that it does not take the fast path after take/slice.
    let out = s.take(&vec![1, 2]);
    assert_eq!(out.n_unique(), 2);
    let out = s.slice(1, 2);
    assert_eq!(out.n_unique(), 2);
}

#[test]
fn test_categorical_flow() {
    let mut cache = StringCache::new();
    cache.disable();

    let s = categorical("a", &["a", "b", "c"]);

    let field = s.field();
    assert_eq!(field.name, "a");
    assert!(matches!(field.dtype, DataType::Categorical(_, CategoricalOrdering::Physical)));
    assert!(matches!(
        s.get_any_value(0).unwrap(),
        AnyValue::Categorical(0, RevMapping::Local(_, _))
    ));

    let first = s.take(&vec![0]);
    assert!(matches!(first.dtype(), DataType::Categorical(_, _)));
    assert_eq!(as_strings(&first, &mut cache)[0].as_deref(), Some("a"));
    assert_eq!(first.len(), 1);

    let mut it = s.iter_str();
    let mut vals = Vec::new();
    while let Some(v) = it.next() {
        vals.push(v.unwrap());
    }
    assert_eq!(vals, &["a", "b", "c"]);
}

#[test]
fn example_indices_and_unique_count() {
    let mut cache = StringCache::new();
    let slice = &[Some("foo"), None, Some("bar"), Some("foo"), Some("foo"), Some("bar")];
    let ca = CategoricalChunked::from_strings(&strings("a", slice), CategoricalOrdering::Physical);
    match ca.cast_with_options(&DataType::UInt32, CastOptions::NonStrict, &mut cache).unwrap() {
        Series::UInt32(p) => assert_eq!(p.values(), &vec![Some(0), None, Some(1), Some(0), Some(0), Some(1)]),
        _ => panic!("expected codes"),
    }
    let decoded = as_strings(&ca, &mut cache);
    let back: Vec<Option<&str>> = decoded.iter().map(|v| v.as_deref()).collect();
    assert_eq!(back, slice.to_vec());
    assert_eq!(ca.n_unique(), 2);
    assert!(!ca._can_fast_unique());
    let taken = ca.take(&vec![1, 2]);
    assert!(!taken._can_fast_unique());
    assert_eq!(taken.n_unique(), 1);
}

#[test]
fn round_trip_of_empty_and_all_null_columns() {
    let mut cache = StringCache::new();
    for slice in [vec![], vec![None, None, None]] {
        let ca = CategoricalChunked::from_strings(&strings("e", &slice), CategoricalOrdering::Physical);
        let decoded = as_strings(&ca, &mut cache);
    let back: Vec<Option<&str>> = decoded.iter().map(|v| v.as_deref()).collect();
        assert_eq!(back, slice);
        assert_eq!(ca.n_unique(), 0);
    }
}

#[test]
fn to_global_fails_while_cache_disabled() {
    let mut cache = StringCache::new();
    let ca = categorical("a", &["x", "y"]);
    assert_eq!(ca.to_global(&mut cache).err(), Some(PolarsError::StringCacheMismatch));
    assert_eq!(cache.len(), 0);
    assert!(!cache.is_enabled());
}

#[test]
fn global_then_local_decodes_the_same() {
    let mut cache = StringCache::new();
    cache.enable();
    cache.intern("z");
    let ca = CategoricalChunked::from_strings(
        &strings("a", &[Some("b"), None, Some("a"), Some("b")]),
        CategoricalOrdering::Physical,
    );
    let g = ca.to_global(&mut cache).unwrap();
    assert_eq!(g.physical().values(), &vec![Some(1), None, Some(2), Some(1)]);
    assert!(g.get_rev_map().is_global());
    let l = g.to_local();
    assert!(!l.get_rev_map().is_global());
    assert_eq!(l.physical().values(), &vec![Some(0), None, Some(1), Some(0)]);
    assert_eq!(as_strings(&l, &mut cache), as_strings(&ca, &mut cache));
    assert_eq!(cache.lookup(1), Some("b"));
}

#[test]
fn enum_by_lookup_and_by_hash() {
    let ca = categorical("a", &["b", "c", "b", "q"]);
    let target = vec!["a".to_string(), "b".to_string(), "c".to_string()];
    let hash = match RevMapping::build_local(target.clone()) {
        RevMapping::Local(_, h) => h,
        _ => panic!("expected a local mapping"),
    };
    let e = ca.to_enum(&target, hash);
    assert!(e.is_enum());
    assert_eq!(e.physical().values(), &vec![Some(1), Some(2), Some(1), None]);

    let own = ca.get_rev_map().get_categories().clone();
    let own_hash = match ca.get_rev_map() {
        RevMapping::Local(_, h) => *h,
        _ => panic!("expected a local mapping"),
    };
    let fast = ca.to_enum(&own, own_hash);
    let slow = ca.to_enum(&own, own_hash.wrapping_add(1));
    assert_eq!(fast.physical().values(), slow.physical().values());
    assert_eq!(fast.physical().values(), ca.physical().values());
}

#[test]
fn content_hash_depends_on_categories() {
    let h = |c: &[&str]| match RevMapping::build_local(c.iter().map(|s| s.to_string()).collect()) {
        RevMapping::Local(_, h) => h,
        _ => panic!("expected a local mapping"),
    };
    assert_eq!(h(&["a", "b"]), h(&["a", "b"]));
    assert_ne!(h(&["a", "b"]), h(&["b", "a"]));
    assert_ne!(h(&["ab", "c"]), h(&["a", "bc"]));
    assert_ne!(h(&["ab", ""]), h(&["a", "b"]));
}

#[test]
fn enum_over_same_text_split_differently_takes_lookup_path() {
    let ca = categorical("a", &["ab", "c", "ab"]);
    let target = vec!["a".to_string(), "bc".to_string()];
    let hash = match RevMapping::build_local(target.clone()) {
        RevMapping::Local(_, h) => h,
        _ => panic!("expected a local mapping"),
    };
    let e = ca.to_enum(&target, hash);
    assert_eq!(e.physical().values(), &vec![None, None, None]);
    assert_eq!(e.get_rev_map().get_categories(), &target);
}

#[test]
fn global_codes_are_stable_across_columns() {
    let mut cache = StringCache::new();
    cache.enable();
    let a = categorical("a", &["p", "q"]).to_global(&mut cache).unwrap();
    let b = categorical("b", &["q", "r", "p"]).to_global(&mut cache).unwrap();
    assert_eq!(a.physical().values(), &vec![Some(0), Some(1)]);
    assert_eq!(b.physical().values(), &vec![Some(1), Some(2), Some(0)]);
    assert_eq!(cache.len(), 3);
}

#[test]
fn cast_to_enum_errors() {
    let mut cache = StringCache::new();
    let ca = categorical("a", &["x"]);
    let r = ca.cast_with_options(&DataType::Enum(None, CategoricalOrdering::Physical), CastOptions::NonStrict, &mut cache);
    assert_eq!(r.err(), Some(PolarsError::EnumWithoutCategories));
    let mut enabled = StringCache::new();
    enabled.enable();
    let global = ca.to_global(&mut enabled).unwrap().get_rev_map().duplicate();
    assert!(global.is_global());
    let r = ca.cast_with_options(&DataType::Enum(Some(global), CategoricalOrdering::Physical), CastOptions::NonStrict, &mut cache);
    assert_eq!(r.err(), Some(PolarsError::EnumWithGlobalMapping));
}

#[test]
fn cast_to_enum_sets_ordering() {
    let mut cache = StringCache::new();
    let ca = categorical("a", &["x", "y"]);
    let target = RevMapping::build_local(vec!["y".to_string(), "x".to_string()]);
    match ca.cast_with_options(&DataType::Enum(Some(target), CategoricalOrdering::Lexical), CastOptions::NonStrict, &mut cache).unwrap() {
        Series::Categorical(e) => {
            assert!(e.is_enum());
            assert!(e.uses_lexical_ordering());
            assert_eq!(e.physical().values(), &vec![Some(1), Some(0)]);
            assert_eq!(e.name(), "a");
        },
        _ => panic!("expected a categorical column"),
    }
}

#[test]
fn enum_to_categorical_uses_cache_mode() {
    let mut cache = StringCache::new();
    let ca = categorical("a", &["x", "y"]);
    let own = ca.get_rev_map().get_categories().clone();
    let e = ca.to_enum(&own, 7);
    let target = DataType::Categorical(None, CategoricalOrdering::Physical);
    match e.cast_with_options(&target, CastOptions::NonStrict, &mut cache).unwrap() {
        Series::Categorical(c) => {
            assert!(!c.is_enum());
            assert!(!c.get_rev_map().is_global());
        },
        _ => panic!("expected a categorical column"),
    }
    cache.enable();
    match e.cast_with_options(&target, CastOptions::NonStrict, &mut cache).unwrap() {
        Series::Categorical(c) => {
            assert!(!c.is_enum());
            assert!(c.get_rev_map().is_global());
            assert_eq!(str_value(&c, 1), "y");
        },
        _ => panic!("expected a categorical column"),
    }
}

#[test]
fn lexical_ordering_clears_sorted_flag() {
    let mut cache = StringCache::new();
    let mut ca = categorical("a", &["x", "y"]);
    ca.set_flags(IsSorted::Ascending);
    assert_eq!(ca.get_flags(), IsSorted::Ascending);
    match ca
        .cast_with_options(&DataType::Categorical(None, CategoricalOrdering::Lexical), CastOptions::NonStrict, &mut cache)
        .unwrap()
    {
        Series::Categorical(c) => {
            assert!(c.uses_lexical_ordering());
            assert_eq!(c.get_flags(), IsSorted::Not);
        },
        _ => panic!("expected a categorical column"),
    }
    let mut lex = ca.set_ordering(CategoricalOrdering::Lexical, false);
    assert_eq!(lex.get_flags(), IsSorted::Not);
    lex.set_flags(IsSorted::Ascending);
    assert_eq!(lex.get_flags(), IsSorted::Not);
}

#[test]
fn set_ordering_clears_fast_unique_unless_kept() {
    let ca = categorical("a", &["x", "y"]);
    assert!(ca._can_fast_unique());
    let kept = ca.clone().set_ordering(CategoricalOrdering::Lexical, true);
    assert!(kept._can_fast_unique());
    let cleared = ca.set_ordering(CategoricalOrdering::Lexical, false);
    assert!(!cleared._can_fast_unique());
    assert_eq!(cleared.get_ordering(), CategoricalOrdering::Lexical);
}

#[test]
fn append_rejects_different_mappings() {
    let mut a = categorical("a", &["x", "y"]);
    let b = categorical("b", &["p"]);
    assert_eq!(a.append(&b), Err(PolarsError::StringCacheMismatch));
    assert_eq!(a.len(), 2);
    let c = categorical("c", &["x", "y", "x"]);
    assert_eq!(a.append(&c), Ok(()));
    assert_eq!(a.len(), 5);
    assert!(!a._can_fast_unique());
}

#[test]
fn get_any_value_out_of_bounds() {
    let ca = categorical("a", &["x"]);
    assert_eq!(ca.get_any_value(1).err(), Some(PolarsError::OutOfBounds { index: 1, len: 1 }));
    assert!(matches!(ca.get_any_value(0), Ok(AnyValue::Categorical(0, _))));
}

#[test]
fn iterator_runs_from_both_ends() {
    let ca = CategoricalChunked::from_strings(
        &strings("a", &[Some("x"), None, Some("y")]),
        CategoricalOrdering::Physical,
    );
    let mut it = ca.iter_str();
    assert_eq!(it.size_hint(), (3, Some(3)));
    assert_eq!(it.next_back(), Some(Some("y")));
    assert_eq!(it.next(), Some(Some("x")));
    assert_eq!(it.next(), Some(None));
    assert_eq!(it.next(), None);
    assert_eq!(it.next_back(), None);
}

#[test]
fn n_unique_scans_global_and_multi_chunk_columns() {
    let mut cache = StringCache::new();
    cache.enable();
    let mut a = categorical("a", &["x", "y", "x"]).to_global(&mut cache).unwrap();
    let b = categorical("b", &["z", "x"]).to_global(&mut cache).unwrap();
    a.append(&b).unwrap();
    assert_eq!(a.physical().n_chunks(), 2);
    assert_eq!(a.n_unique(), 3);
    assert_eq!(as_strings(&a, &mut cache).iter().map(|v| v.clone().unwrap()).collect::<Vec<_>>(), vec!["x", "y", "x", "z", "x"]);
}

#[test]
fn unchecked_constructors_and_rev_map_lookup() {
    let rm = RevMapping::build_local(vec!["p".to_string(), "q".to_string()]);
    assert_eq!(rm.get(1), "q");
    assert_eq!(rm.get_optional(2), None);
    assert_eq!(rm.find("p"), Some(0));
    let idx = UInt32Chunked::new("i".to_string(), vec![Some(1), Some(0)]);
    let ca = CategoricalChunked::from_cats_and_rev_map_unchecked(idx, rm, true, CategoricalOrdering::Physical);
    assert!(ca.is_enum());
    assert_eq!(str_value(&ca, 0), "q");
    let ca = ca._with_fast_unique(true);
    assert_eq!(ca.n_unique(), 2);
}

#[test]
fn numeric_cast_reads_categories() {
    let mut cache = StringCache::new();
    let ca = CategoricalChunked::from_strings(
        &strings("n", &[Some("12"), None, Some("-3"), Some("12")]),
        CategoricalOrdering::Physical,
    );
    match ca.cast_with_options(&DataType::Int64, CastOptions::Strict, &mut cache).unwrap() {
        Series::Int64(out) => {
            assert_eq!(out.values(), &vec![Some(12), None, Some(-3), Some(12)]);
            assert_eq!(out.name(), "n");
        },
        _ => panic!("expected an integer column"),
    }
}

#[test]
fn numeric_cast_of_non_numbers() {
    let mut cache = StringCache::new();
    let ca = categorical("n", &["7", "seven"]);
    let strict = ca.cast_with_options(&DataType::Int64, CastOptions::Strict, &mut cache);
    assert_eq!(strict.err(), Some(PolarsError::ConversionFailed));
    match ca.cast_with_options(&DataType::Int64, CastOptions::NonStrict, &mut cache).unwrap() {
        Series::Int64(out) => assert_eq!(out.values(), &vec![Some(7), None]),
        _ => panic!("expected an integer column"),
    }
}

#[test]
fn numeric_cast_of_global_column() {
    let mut cache = StringCache::new();
    cache.enable();
    cache.intern("100");
    let g = categorical("n", &["5", "100", "5"]).to_global(&mut cache).unwrap();
    match g.cast_with_options(&DataType::Int64, CastOptions::Strict, &mut cache).unwrap() {
        Series::Int64(out) => assert_eq!(out.values(), &vec![Some(5), Some(100), Some(5)]),
        _ => panic!("expected an integer column"),
    }
}
