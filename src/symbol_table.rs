//! A table from symbol names to addresses.
use vstd::prelude::*;

verus! {

/// Symbol names with their addresses; each name appears at most once.
#[derive(Debug)]
pub struct SymbolTable {
    entries: Vec<(String, usize)>,
}

impl View for SymbolTable {
    type V = Map<Seq<char>, nat>;

    closed spec fn view(&self) -> Map<Seq<char>, nat> {
        Map::new(
            |k: Seq<char>| exists|i: int| 0 <= i < self.entries.len() && #[trigger] self.entries@[i].0@ == k,
            |k: Seq<char>|
                self.entries@[choose|i: int|
                    0 <= i < self.entries.len() && #[trigger] self.entries@[i].0@ == k].1 as nat,
        )
    }
}

impl PartialEq for SymbolTable {
    fn eq(&self, other: &SymbolTable) -> (r: bool) {
        self.same_entries(other)
    }
}

impl vstd::std_specs::cmp::PartialEqSpecImpl for SymbolTable {
    open spec fn obeys_eq_spec() -> bool {
        true
    }

    open spec fn eq_spec(&self, other: &SymbolTable) -> bool {
        self@ == other@
    }
}

impl SymbolTable {
    /// No name appears twice among the entries.
    #[verifier::type_invariant]
    closed spec fn wf(&self) -> bool {
        forall|i: int, j: int|
            0 <= i < self.entries.len() && 0 <= j < self.entries.len() && i != j
                ==> #[trigger] self.entries@[i].0@ != #[trigger] self.entries@[j].0@
    }

    proof fn lemma_entry(&self, i: int)
        requires
            self.wf(),
            0 <= i < self.entries.len(),
        ensures
            self@.contains_key(self.entries@[i].0@),
            self@[self.entries@[i].0@] == self.entries@[i].1 as nat,
    {
        let k = self.entries@[i].0@;
        assert(exists|j: int| 0 <= j < self.entries.len() && #[trigger] self.entries@[j].0@ == k);
    }

    /// An empty table.
    pub fn new() -> (r: SymbolTable)
        ensures
            r@ == Map::<Seq<char>, nat>::empty(),
    {
        let r = SymbolTable { entries: Vec::new() };
        assert(r@ =~= Map::<Seq<char>, nat>::empty());
        r
    }

    /// Where `name` stands among the entries, if it does.
    fn find(&self, name: &String) -> (r: Option<usize>)
        ensures
            r matches Some(i) ==> i < self.entries.len() && self.entries@[i as int].0@ == name@,
            r is None ==> forall|i: int|
                0 <= i < self.entries.len() ==> #[trigger] self.entries@[i].0@ != name@,
    {
        let mut i: usize = 0;
        while i < self.entries.len()
            invariant
                i <= self.entries.len(),
                forall|j: int| 0 <= j < i ==> #[trigger] self.entries@[j].0@ != name@,
            decreases self.entries.len() - i,
        {
            if self.entries[i].0 == *name {
                return Some(i);
            }
            i += 1;
        }
        None
    }

    /// Gives `symbol` the address `address`, replacing any address it had.
    pub fn add_entry(&mut self, symbol: &str, address: usize)
        ensures
            final(self)@ == old(self)@.insert(symbol@, address as nat),
    {
        proof {
            use_type_invariant(&*self);
        }
        let name = symbol.to_owned();
        let ghost before = *self;
        let found = self.find(&name);
        let ghost pos: int = match found {
            Some(i) => i as int,
            None => before.entries.len() as int,
        };
        let mut entries: Vec<(String, usize)> = Vec::new();
        std::mem::swap(&mut entries, &mut self.entries);
        match found {
            Some(i) => {
                entries.set(i, (name, address));
            },
            None => {
                entries.push((name, address));
            },
        }
        assert(entries@[pos].0@ == symbol@ && entries@[pos].1 == address);
        assert(forall|j: int|
            0 <= j < before.entries.len() && j != pos ==> #[trigger] entries@[j]
                == before.entries@[j]);
        self.entries = entries;
        proof {
            use_type_invariant(&*self);
        }
        proof {
            self.lemma_entry(pos);
            assert forall|k: Seq<char>| k != symbol@ implies (#[trigger] self@.contains_key(k)
                <==> before@.contains_key(k)) && (before@.contains_key(k) ==> self@[k]
                == before@[k]) by {
                if before@.contains_key(k) {
                    let j = choose|j: int|
                        0 <= j < before.entries.len() && #[trigger] before.entries@[j].0@ == k;
                    before.lemma_entry(j);
                    self.lemma_entry(j);
                }
                if self@.contains_key(k) {
                    let j = choose|j: int|
                        0 <= j < self.entries.len() && #[trigger] self.entries@[j].0@ == k;
                    before.lemma_entry(j);
                }
            }
        }
        assert(self@ =~= before@.insert(symbol@, address as nat));
    }
    /// Whether `symbol` has an address.
    pub fn contains(&self, symbol: &str) -> (r: bool)
        ensures
            r == self@.contains_key(symbol@),
    {
        proof {
            use_type_invariant(self);
        }
        let name = symbol.to_owned();
        match self.find(&name) {
            Some(i) => {
                proof {
                    self.lemma_entry(i as int);
                }
                true
            },
            None => false,
        }
    }

    /// The address of `symbol`, if it has one.
    pub fn get_address(&self, symbol: &str) -> (r: Option<&usize>)
        ensures
            r is Some <==> self@.contains_key(symbol@),
            r matches Some(a) ==> self@[symbol@] == *a as nat,
    {
        proof {
            use_type_invariant(self);
        }
        let name = symbol.to_owned();
        match self.find(&name) {
            Some(i) => {
                proof {
                    self.lemma_entry(i as int);
                }
                Some(&self.entries[i].1)
            },
            None => None,
        }
    }

    /// Whether the two tables give the same names the same addresses.
    fn same_entries(&self, other: &SymbolTable) -> (r: bool)
        ensures
            r == (self@ == other@),
    {
        proof {
            use_type_invariant(self);
            use_type_invariant(other);
        }
        let mut i: usize = 0;
        while i < self.entries.len()
            invariant
                self.wf(),
                other.wf(),
                i <= self.entries.len(),
                forall|j: int|
                    0 <= j < i ==> other@.contains_key(#[trigger] self.entries@[j].0@)
                        && other@[self.entries@[j].0@] == self.entries@[j].1 as nat,
            decreases self.entries.len() - i,
        {
            proof {
                self.lemma_entry(i as int);
            }
            match other.get_address(self.entries[i].0.as_str()) {
                Some(a) => {
                    if *a != self.entries[i].1 {
                        return false;
                    }
                },
                None => {
                    return false;
                },
            }
            i += 1;
        }
        let mut k: usize = 0;
        while k < other.entries.len()
            invariant
                self.wf(),
                other.wf(),
                k <= other.entries.len(),
                forall|j: int| 0 <= j < k ==> self@.contains_key(#[trigger] other.entries@[j].0@),
            decreases other.entries.len() - k,
        {
            proof {
                other.lemma_entry(k as int);
            }
            if !self.contains(other.entries[k].0.as_str()) {
                return false;
            }
            k += 1;
        }
        proof {
            assert forall|n: Seq<char>| #[trigger] self@.contains_key(n) implies other@.contains_key(n)
                && other@[n] == self@[n] by {
                let j = choose|j: int| 0 <= j < self.entries.len() && #[trigger] self.entries@[j].0@ == n;
                self.lemma_entry(j);
            }
            assert forall|n: Seq<char>| #[trigger] other@.contains_key(n) implies self@.contains_key(n) by {
                let j = choose|j: int| 0 <= j < other.entries.len() && #[trigger] other.entries@[j].0@ == n;
                other.lemma_entry(j);
            }
        }
        assert(self@ =~= other@);
        true
    }
}

} // verus!
