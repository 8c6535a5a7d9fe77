//! The BPE merge table: a map from a pair of adjacent pieces to the rank of
//! the rule that merges them.

use vstd::prelude::*;
use vstd::hash_map::StringHashMap;
use std::collections::HashMap;

verus! {

broadcast use vstd::std_specs::hash::group_hash_axioms, vstd::hash_map::group_hash_map_axioms;

/// The table key of a pair of symbol numbers.
pub open spec fn pair_key(a: nat, b: nat) -> u128 {
    (a * 0x1_0000_0000_0000_0000 + b) as u128
}

proof fn lemma_pair_key_injective(a: nat, b: nat, c: nat, d: nat)
    requires
        a < 0x1_0000_0000_0000_0000,
        b < 0x1_0000_0000_0000_0000,
        c < 0x1_0000_0000_0000_0000,
        d < 0x1_0000_0000_0000_0000,
        pair_key(a, b) == pair_key(c, d),
    ensures
        a == c,
        b == d,
{
    assert(a * 0x1_0000_0000_0000_0000 + b == c * 0x1_0000_0000_0000_0000 + d);
    if a < c {
        assert(a * 0x1_0000_0000_0000_0000 + 0x1_0000_0000_0000_0000 <= c * 0x1_0000_0000_0000_0000)
            by (nonlinear_arith)
            requires
                a < c,
        ;
    } else if c < a {
        assert(c * 0x1_0000_0000_0000_0000 + 0x1_0000_0000_0000_0000 <= a * 0x1_0000_0000_0000_0000)
            by (nonlinear_arith)
            requires
                c < a,
        ;
    }
}

/// Ranks of merge rules, keyed by the (left, right) pair they merge.
pub struct MergeTable {
    symbols: StringHashMap<usize>,
    symbol_count: usize,
    ranks: HashMap<u128, usize>,
    model: Ghost<Map<(Seq<char>, Seq<char>), usize>>,
}

impl View for MergeTable {
    type V = Map<(Seq<char>, Seq<char>), usize>;

    closed spec fn view(&self) -> Map<(Seq<char>, Seq<char>), usize> {
        self.model@
    }
}

impl MergeTable {
    /// How many distinct pieces the table has numbered so far.
    pub closed spec fn symbol_total(&self) -> nat {
        self.symbol_count as nat
    }

    pub closed spec fn key_of(&self, l: Seq<char>, r: Seq<char>) -> u128 {
        pair_key(self.symbols@[l] as nat, self.symbols@[r] as nat)
    }

    /// The table's internal numbering agrees with its model.
    pub closed spec fn wf(&self) -> bool {
        &&& forall|s: Seq<char>| #[trigger]
            self.symbols@.contains_key(s) ==> self.symbols@[s] < self.symbol_count
        &&& forall|s: Seq<char>, t: Seq<char>|
            #![trigger self.symbols@[s], self.symbols@[t]]
            self.symbols@.contains_key(s) && self.symbols@.contains_key(t) && self.symbols@[s]
                == self.symbols@[t] ==> s == t
        &&& forall|k: u128| #[trigger]
            self.ranks@.contains_key(k) ==> (k as nat) / 0x1_0000_0000_0000_0000
                < self.symbol_count && (k as nat) % 0x1_0000_0000_0000_0000 < self.symbol_count
        &&& forall|l: Seq<char>, r: Seq<char>| #[trigger]
            self.model@.contains_key((l, r)) <==> (self.symbols@.contains_key(l)
                && self.symbols@.contains_key(r) && self.ranks@.contains_key(self.key_of(l, r)))
        &&& forall|l: Seq<char>, r: Seq<char>| #[trigger]
            self.model@.contains_key((l, r)) ==> self.model@[(l, r)] == self.ranks@[self.key_of(
                l,
                r,
            )]
    }

    /// An empty table.
    pub fn new() -> (t: Self)
        ensures
            t.wf(),
            t@ == Map::<(Seq<char>, Seq<char>), usize>::empty(),
            t.symbol_total() == 0,
    {
        MergeTable {
            symbols: StringHashMap::new(),
            symbol_count: 0,
            ranks: HashMap::new(),
            model: Ghost(Map::empty()),
        }
    }

    fn intern(&mut self, s: String) -> (id: usize)
        requires
            old(self).wf(),
            old(self).symbol_count < usize::MAX,
        ensures
            final(self).wf(),
            final(self)@ == old(self)@,
            final(self).symbols@ == old(self).symbols@.insert(s@, id),
            old(self).symbols@.contains_key(s@) ==> id == old(self).symbols@[s@]
                && final(self).symbol_count == old(self).symbol_count,
            !old(self).symbols@.contains_key(s@) ==> id == old(self).symbol_count
                && final(self).symbol_count == old(self).symbol_count + 1,
            final(self).ranks@ == old(self).ranks@,
    {
        match self.symbols.get(s.as_str()) {
            Some(id) => {
                let id = *id;
                proof {
                    assert(self.symbols@.insert(s@, id) =~= self.symbols@);
                }
                id
            },
            None => {
                let id = self.symbol_count;
                let ghost old_table = *self;
                self.symbols.insert(s, id);
                self.symbol_count = id + 1;
                proof {
                    assert forall|l: Seq<char>, r: Seq<char>| #[trigger]
                        self.model@.contains_key((l, r)) implies self.symbols@.contains_key(l)
                        && self.symbols@.contains_key(r) && self.key_of(l, r) == old_table.key_of(
                        l,
                        r,
                    ) by {
                        assert(old_table.model@.contains_key((l, r)));
                    }
                    assert forall|l: Seq<char>, r: Seq<char>|
                        self.symbols@.contains_key(l) && self.symbols@.contains_key(r)
                            && self.ranks@.contains_key(
                            #[trigger] self.key_of(l, r),
                        ) implies self.model@.contains_key((l, r)) by {
                        let k = self.key_of(l, r);
                        let a = self.symbols@[l] as nat;
                        let b = self.symbols@[r] as nat;
                        assert(k == pair_key(a, b));
                        assert((k as nat) / 0x1_0000_0000_0000_0000 == a) by (nonlinear_arith)
                            requires
                                k as nat == a * 0x1_0000_0000_0000_0000 + b,
                                b < 0x1_0000_0000_0000_0000,
                        ;
                        assert((k as nat) % 0x1_0000_0000_0000_0000 == b) by (nonlinear_arith)
                            requires
                                k as nat == a * 0x1_0000_0000_0000_0000 + b,
                                b < 0x1_0000_0000_0000_0000,
                        ;
                        assert(old_table.ranks@.contains_key(k));
                        assert(l != s@);
                        assert(r != s@);
                        assert(old_table.key_of(l, r) == k);
                    }
                }
                id
            },
        }
    }

    /// Records that the pair (`left`, `right`) merges with rank `rank`,
    /// replacing any earlier rank of the pair.
    pub fn insert(&mut self, left: String, right: String, rank: usize)
        requires
            old(self).wf(),
            old(self).symbol_total() + 2 <= usize::MAX,
        ensures
            final(self).wf(),
            final(self)@ == old(self)@.insert((left@, right@), rank),
            final(self).symbol_total() <= old(self).symbol_total() + 2,
    {
        let ghost l = left@;
        let ghost r = right@;
        let a = self.intern(left);
        let b = self.intern(right);
        let key: u128 = (a as u128) * 0x1_0000_0000_0000_0000 + (b as u128);
        let ghost mid = *self;
        assert(key == pair_key(a as nat, b as nat));
        self.ranks.insert(key, rank);
        self.model = Ghost(self.model@.insert((l, r), rank));
        proof {
            assert(self.symbols@[l] == a);
            assert(self.symbols@[r] == b);
            assert(self.key_of(l, r) == key);
            assert((key as nat) / 0x1_0000_0000_0000_0000 == a) by (nonlinear_arith)
                requires
                    key as nat == a * 0x1_0000_0000_0000_0000 + b,
                    b < 0x1_0000_0000_0000_0000,
            ;
            assert((key as nat) % 0x1_0000_0000_0000_0000 == b) by (nonlinear_arith)
                requires
                    key as nat == a * 0x1_0000_0000_0000_0000 + b,
                    b < 0x1_0000_0000_0000_0000,
            ;
            assert forall|x: Seq<char>, y: Seq<char>|
                self.symbols@.contains_key(x) && self.symbols@.contains_key(y) && #[trigger] self.key_of(
                    x,
                    y,
                ) == key implies x == l && y == r by {
                lemma_pair_key_injective(
                    self.symbols@[x] as nat,
                    self.symbols@[y] as nat,
                    a as nat,
                    b as nat,
                );
            }
            assert forall|x: Seq<char>, y: Seq<char>| #[trigger]
                self.model@.contains_key((x, y)) <==> (self.symbols@.contains_key(x)
                    && self.symbols@.contains_key(y) && self.ranks@.contains_key(
                    self.key_of(x, y),
                )) by {
                if (x, y) != (l, r) {
                    if self.symbols@.contains_key(x) && self.symbols@.contains_key(y) {
                        if self.key_of(x, y) == key {
                            assert(x == l && y == r);
                        }
                    }
                    assert(mid.model@.contains_key((x, y)) <==> (mid.symbols@.contains_key(x)
                        && mid.symbols@.contains_key(y) && mid.ranks@.contains_key(
                        mid.key_of(x, y),
                    )));
                }
            }
            assert forall|x: Seq<char>, y: Seq<char>| #[trigger]
                self.model@.contains_key((x, y)) implies self.model@[(x, y)] == self.ranks@[self.key_of(
                x,
                y,
            )] by {
                if (x, y) != (l, r) {
                    if self.key_of(x, y) == key {
                        assert(x == l && y == r);
                    }
                    assert(mid.model@.contains_key((x, y)));
                }
            }
        }
    }

    /// The rank of the rule merging (`left`, `right`), if there is one.
    pub fn get(&self, left: &str, right: &str) -> (r: Option<usize>)
        requires
            self.wf(),
        ensures
            r == (if self@.contains_key((left@, right@)) {
                Some(self@[(left@, right@)])
            } else {
                None
            }),
    {
        let a = match self.symbols.get(left) {
            Some(a) => *a,
            None => {
                return None;
            },
        };
        let b = match self.symbols.get(right) {
            Some(b) => *b,
            None => {
                return None;
            },
        };
        let key: u128 = (a as u128) * 0x1_0000_0000_0000_0000 + (b as u128);
        assert(key == self.key_of(left@, right@));
        match self.ranks.get(&key) {
            Some(rank) => Some(*rank),
            None => None,
        }
    }
}

} // verus!
