//! Search states, as they are compared to prune a search.

use std::collections::HashMap;
use vstd::prelude::*;
use crate::decimal::{bucket_of, Decimal};
use crate::model::{Variable, VariableConfig};
use crate::solve::table::{lemma_slot_unique, Env, Variables};

verus! {

/// What tells two search states apart: the node, and the bucket of every
/// hidden variable.
pub struct Key {
    pub node: usize,
    pub buckets: Seq<int>,
}

/// The key of the state in which the search stands at `node` with the
/// variables `env`.
///
/// `buckets` lists the declared variables in the order of their declarations:
/// for a normal variable its value times 24.99, rounded toward zero; for a
/// random variable zero, so that it never tells two states apart.
pub open spec fn key_of(decls: Seq<Variable>, node: usize, env: Env) -> Key {
    Key {
        node,
        buckets: Seq::new(
            decls.len(),
            |i: int|
                if decls[i].config is Normal {
                    bucket_of(env.normals[decls[i].id@])
                } else {
                    0
                },
        ),
    }
}

/// A search state in the form in which it is stored and compared.
#[derive(Debug)]
pub struct State {
    pub node: usize,
    pub variables: Vec<i64>,
}

impl View for State {
    type V = Key;

    open spec fn view(&self) -> Key {
        Key { node: self.node, buckets: self.variables@.map_values(|b: i64| b as int) }
    }
}

impl State {
    /// The state of a search that stands at `node` with the variables
    /// `variables`.
    pub fn new(node: usize, variables: &Variables) -> (state: State)
        requires
            variables.wf(),
        ensures
            state@ == key_of(variables.decls@, node, variables.env()),
    {
        let mut buckets: Vec<i64> = Vec::new();
        let mut i: usize = 0;
        while i < variables.decls.len()
            invariant
                i <= variables.decls.len(),
                variables.wf(),
                buckets@.len() == i,
                forall|k: int|
                    0 <= k < i ==> buckets@[k] as int == key_of(
                        variables.decls@,
                        node,
                        variables.env(),
                    ).buckets[k],
            decreases variables.decls.len() - i,
        {
            let bucket: i64 = match &variables.decls[i].config {
                VariableConfig::Normal { .. } => {
                    proof {
                        lemma_slot_unique(
                            variables.decls@,
                            variables.decls@[i as int].id@,
                            i as int,
                        );
                    }
                    Decimal::from_units(variables.values[i]).quantize()
                },
                VariableConfig::Random => 0,
            };
            buckets.push(bucket);
            i = i + 1;
        }
        let state = State { node, variables: buckets };
        assert(state@.buckets =~= key_of(variables.decls@, node, variables.env()).buckets);
        state
    }

    /// Whether two states are the same.
    pub fn same(&self, other: &State) -> (r: bool)
        ensures
            r == (self@ == other@),
    {
        if self.node != other.node {
            return false;
        }
        if self.variables.len() != other.variables.len() {
            assert(self@.buckets.len() != other@.buckets.len());
            return false;
        }
        let mut i: usize = 0;
        while i < self.variables.len()
            invariant
                i <= self.variables.len(),
                self.variables.len() == other.variables.len(),
                forall|k: int| 0 <= k < i ==> self.variables@[k] == other.variables@[k],
            decreases self.variables.len() - i,
        {
            if self.variables[i] != other.variables[i] {
                assert(self@.buckets[i as int] != other@.buckets[i as int]);
                return false;
            }
            i = i + 1;
        }
        assert(self@.buckets =~= other@.buckets);
        true
    }
}

/// The modulus of digests.
pub const DIGEST_MODULUS: i128 = 0x1FFF_FFFF_FFFF_FFFF;

/// The factor by which a digest is scaled before a number is mixed in.
pub const DIGEST_FACTOR: i128 = 1_000_003;

/// What is added to a bucket, so that it is not negative when it is mixed
/// in.
pub const DIGEST_SHIFT: i128 = 0x8000_0000_0000_0000;

/// The digest `digest` with the number `n` mixed in.
pub open spec fn mix(digest: int, n: int) -> int {
    (digest * DIGEST_FACTOR + (n + DIGEST_SHIFT)) % (DIGEST_MODULUS as int)
}

/// The digest `digest` with the numbers `buckets` mixed in, in order.
pub open spec fn mix_all(digest: int, buckets: Seq<int>) -> int
    decreases buckets.len(),
{
    if buckets.len() == 0 {
        digest
    } else {
        mix_all(mix(digest, buckets[0]), buckets.drop_first())
    }
}

/// The digest of a key: a number under which the key is filed. Equal keys
/// have equal digests.
pub open spec fn digest(key: Key) -> int {
    mix_all(mix(0, key.node as int), key.buckets)
}

/// Mixes a number into a digest.
fn mixed(digest: u64, n: i128) -> (r: u64)
    requires
        digest < DIGEST_MODULUS,
        -0x8000_0000_0000_0000 <= n < 0x1_0000_0000_0000_0000,
    ensures
        r == mix(digest as int, n as int),
        r < DIGEST_MODULUS,
{
    assert(0 <= digest * 1_000_003 <= 0x1FFF_FFFF_FFFF_FFFF * 1_000_003) by (nonlinear_arith)
        requires
            0 <= digest < 0x1FFF_FFFF_FFFF_FFFF,
    ;
    let wide: i128 = (digest as i128) * DIGEST_FACTOR + (n + DIGEST_SHIFT);
    (wide % DIGEST_MODULUS) as u64
}

impl State {
    /// The digest of the state.
    pub fn digest(&self) -> (r: u64)
        ensures
            r == digest(self@),
    {
        let ghost buckets = self@.buckets;
        let mut r: u64 = mixed(0, self.node as i128);
        let mut i: usize = 0;
        assert(buckets.skip(0) =~= buckets);
        while i < self.variables.len()
            invariant
                i <= self.variables.len(),
                buckets == self@.buckets,
                r < DIGEST_MODULUS,
                mix_all(r as int, buckets.skip(i as int)) == digest(self@),
            decreases self.variables.len() - i,
        {
            assert(buckets.skip(i as int)[0] == self.variables@[i as int]);
            assert(buckets.skip(i as int).drop_first() =~= buckets.skip(i + 1));
            r = mixed(r, self.variables[i] as i128);
            i = i + 1;
        }
        assert(buckets.skip(i as int).len() == 0);
        r
    }
}

/// Whether `i` is one of the places.
pub open spec fn filed(places: Seq<usize>, i: int) -> bool {
    exists|k: int| 0 <= k < places.len() && #[trigger] places[k] == i
}

/// The states that a search has been in, in the order in which it came to
/// them, filed under their digests.
#[derive(Debug)]
pub struct StateSet {
    /// The states, in the order in which they were added.
    pub states: Vec<State>,
    /// For every digest, the places in `states` of the states that have it.
    pub index: HashMap<u64, Vec<usize>>,
}

impl View for StateSet {
    type V = Seq<Key>;

    open spec fn view(&self) -> Seq<Key> {
        self.states@.map_values(|s: State| s@)
    }
}

impl StateSet {
    /// Whether every state is filed under its digest, and nothing else is
    /// filed.
    pub open spec fn wf(&self) -> bool {
        &&& forall|i: int|
            0 <= i < self.states@.len() ==> {
                &&& self.index@.contains_key(digest(#[trigger] self.states@[i]@) as u64)
                &&& filed(self.index@[digest(self.states@[i]@) as u64]@, i)
            }
        &&& forall|d: u64, k: int|
            self.index@.contains_key(d) && 0 <= k < self.index@[d]@.len() ==> (
            #[trigger] self.index@[d]@[k]) < self.states@.len()
    }

    /// The empty set.
    pub fn new() -> (set: StateSet)
        ensures
            set.wf(),
            set@ == Seq::<Key>::empty(),
    {
        let set = StateSet { states: Vec::new(), index: HashMap::new() };
        assert(set@ =~= Seq::<Key>::empty());
        set
    }

    /// Whether the set holds `state`.
    pub fn contains(&self, state: &State) -> (r: bool)
        requires
            self.wf(),
        ensures
            r == self@.contains(state@),
    {
        let d: u64 = state.digest();
        match self.index.get(&d) {
            None => {
                assert forall|i: int| 0 <= i < self@.len() implies self@[i] != state@ by {
                    if self@[i] == state@ {
                        assert(self.index@.contains_key(digest(self.states@[i]@) as u64));
                    }
                }
                false
            },
            Some(places) => {
                let mut k: usize = 0;
                while k < places.len()
                    invariant
                        self.wf(),
                        d == digest(state@),
                        self.index@.contains_key(d),
                        *places == self.index@[d],
                        k <= places.len(),
                        forall|j: int| 0 <= j < k ==> self@[places@[j] as int] != state@,
                    decreases places.len() - k,
                {
                    let at: usize = places[k];
                    if self.states[at].same(state) {
                        assert(self@[at as int] == state@);
                        return true;
                    }
                    k = k + 1;
                }
                assert forall|i: int| 0 <= i < self@.len() implies self@[i] != state@ by {
                    if self@[i] == state@ {
                        assert(filed(self.index@[digest(self.states@[i]@) as u64]@, i));
                        let j = choose|j: int| 0 <= j < places@.len() && #[trigger] places@[j] == i;
                        assert(self@[places@[j] as int] != state@);
                    }
                }
                false
            },
        }
    }

    /// Adds `state` unless the set holds it; tells whether it was added.
    pub fn insert(&mut self, state: State) -> (fresh: bool)
        requires
            old(self).wf(),
        ensures
            final(self).wf(),
            fresh == !old(self)@.contains(state@),
            final(self)@ == if fresh {
                old(self)@.push(state@)
            } else {
                old(self)@
            },
    {
        if self.contains(&state) {
            return false;
        }
        let d: u64 = state.digest();
        let at: usize = self.states.len();
        let mut places: Vec<usize> = match self.index.remove(&d) {
            Some(places) => places,
            None => Vec::new(),
        };
        let ghost before = places@;
        places.push(at);
        self.index.insert(d, places);
        self.states.push(state);
        proof {
            assert(self@ =~= old(self)@.push(state@));
            assert forall|i: int| 0 <= i < self.states@.len() implies {
                &&& self.index@.contains_key(digest(#[trigger] self.states@[i]@) as u64)
                &&& filed(self.index@[digest(self.states@[i]@) as u64]@, i)
            } by {
                if i < at {
                    assert(self.states@[i] == old(self).states@[i]);
                    let h = digest(self.states@[i]@) as u64;
                    assert(filed(old(self).index@[h]@, i));
                    if h == d {
                        let j = choose|j: int| 0 <= j < before.len() && #[trigger] before[j] == i;
                        assert(places@[j] == i);
                    }
                } else {
                    assert(places@[before.len() as int] == at);
                }
            }
            assert forall|h: u64, k: int|
                self.index@.contains_key(h) && 0 <= k < self.index@[h]@.len() implies (
            #[trigger] self.index@[h]@[k]) < self.states@.len() by {
                if h == d {
                    if k < before.len() {
                        assert(old(self).index@[d]@[k] < old(self).states@.len());
                    }
                } else {
                    assert(old(self).index@[h]@[k] < old(self).states@.len());
                }
            }
        }
        true
    }
}

} // verus!
