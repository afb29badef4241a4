use vstd::prelude::*;
use crate::revmap::find_category;

verus! {

/// A string interner shared by the columns that use global encoding: a
/// string's code is its position in the cache, stable while the cache is
/// enabled and not reset.
#[derive(Debug)]
pub struct StringCache {
    enabled: bool,
    strings: Vec<String>,
    generation: u32,
}

impl StringCache {
    pub closed spec fn spec_enabled(&self) -> bool {
        self.enabled
    }

    /// The interned strings, by code.
    pub closed spec fn spec_strings(&self) -> Seq<Seq<char>> {
        self.strings.deep_view()
    }

    pub closed spec fn spec_generation(&self) -> u32 {
        self.generation
    }

    /// No string is interned twice.
    pub open spec fn well_formed(&self) -> bool {
        forall|i: int, j: int|
            0 <= i < j < self.spec_strings().len() ==> self.spec_strings()[i] != self.spec_strings()[j]
    }

    /// A disabled, empty cache.
    pub fn new() -> (r: StringCache)
        ensures
            !r.spec_enabled(),
            r.spec_strings().len() == 0,
            r.spec_generation() == 0,
            r.well_formed(),
    {
        StringCache { enabled: false, strings: Vec::new(), generation: 0 }
    }

    pub fn is_enabled(&self) -> (r: bool)
        ensures
            r == self.spec_enabled(),
    {
        self.enabled
    }

    pub fn generation(&self) -> (r: u32)
        ensures
            r == self.spec_generation(),
    {
        self.generation
    }

    /// Number of interned strings.
    pub fn len(&self) -> (r: usize)
        ensures
            r == self.spec_strings().len(),
    {
        self.strings.len()
    }

    /// Turn the cache on; interned strings are kept.
    pub fn enable(&mut self)
        ensures
            final(self).spec_enabled(),
            final(self).spec_strings() == old(self).spec_strings(),
            final(self).spec_generation() == old(self).spec_generation(),
    {
        self.enabled = true;
    }

    /// Turn the cache off and forget every interned string; codes handed out
    /// before belong to an older generation.
    pub fn disable(&mut self)
        ensures
            !final(self).spec_enabled(),
            final(self).spec_strings().len() == 0,
            final(self).spec_generation() == old(self).spec_generation().wrapping_add(1),
            final(self).well_formed(),
    {
        self.enabled = false;
        self.strings = Vec::new();
        self.generation = self.generation.wrapping_add(1);
    }

    /// The string of an interned code.
    pub fn lookup(&self, code: u32) -> (r: Option<&str>)
        ensures
            match r {
                Some(s) => (code as int) < self.spec_strings().len() && s@ == self.spec_strings()[code as int],
                None => (code as int) >= self.spec_strings().len(),
            },
    {
        if (code as usize) < self.strings.len() {
            Some(self.strings[code as usize].as_str())
        } else {
            None
        }
    }

    /// The code of `s`, interning it if absent.
    pub fn intern(&mut self, s: &str) -> (r: u32)
        requires
            old(self).well_formed(),
            old(self).spec_strings().len() < u32::MAX,
        ensures
            final(self).well_formed(),
            final(self).spec_enabled() == old(self).spec_enabled(),
            final(self).spec_generation() == old(self).spec_generation(),
            (r as int) < final(self).spec_strings().len(),
            final(self).spec_strings()[r as int] == s@,
            old(self).spec_strings().contains(s@) ==> final(self).spec_strings() == old(self).spec_strings(),
            !old(self).spec_strings().contains(s@) ==> final(self).spec_strings() == old(self).spec_strings().push(s@),
    {
        match find_category(&self.strings, s) {
            Some(code) => {
                assert(self.spec_strings()[code as int] == s@);
                code
            },
            None => {
                let code = self.strings.len() as u32;
                let ghost before = self.strings.deep_view();
                self.strings.push(s.to_string());
                assert(self.strings.deep_view() =~= before.push(s@));
                code
            },
        }
    }

    /// The codes of `categories`, in order, interning those that are absent.
    pub fn intern_all(&mut self, categories: &Vec<String>) -> (r: Vec<u32>)
        requires
            old(self).well_formed(),
            old(self).spec_strings().len() + categories@.len() <= u32::MAX,
        ensures
            final(self).well_formed(),
            final(self).spec_enabled() == old(self).spec_enabled(),
            final(self).spec_generation() == old(self).spec_generation(),
            final(self).spec_strings().len() <= old(self).spec_strings().len() + categories@.len(),
            old(self).spec_strings().is_prefix_of(final(self).spec_strings()),
            r@.len() == categories@.len(),
            forall|i: int| 0 <= i < r@.len() ==> (r@[i] as int) < final(self).spec_strings().len()
                && final(self).spec_strings()[r@[i] as int] == categories@[i]@,
    {
        let mut codes: Vec<u32> = Vec::new();
        let mut i: usize = 0;
        while i < categories.len()
            invariant
                i <= categories@.len(),
                self.well_formed(),
                self.spec_enabled() == old(self).spec_enabled(),
                self.spec_generation() == old(self).spec_generation(),
                self.spec_strings().len() <= old(self).spec_strings().len() + i,
                old(self).spec_strings().len() + categories@.len() <= u32::MAX,
                old(self).spec_strings().is_prefix_of(self.spec_strings()),
                codes@.len() == i,
                forall|j: int| 0 <= j < i ==> (codes@[j] as int) < self.spec_strings().len()
                    && self.spec_strings()[codes@[j] as int] == categories@[j]@,
            decreases categories@.len() - i,
        {
            let ghost prev = self.spec_strings();
            let code = self.intern(categories[i].as_str());
            assert forall|j: int| 0 <= j < i implies (codes@[j] as int) < self.spec_strings().len()
                && self.spec_strings()[codes@[j] as int] == categories@[j]@ by {
                assert(prev.is_prefix_of(self.spec_strings()));
            }
            codes.push(code);
            i += 1;
        }
        codes
    }
}

} // verus!
