//! Numbers and the variables that hold them.

use vstd::prelude::*;

verus! {

/// A number, kept as the 32 bits of an IEEE 754 single-precision value.
///
/// The library never computes with numbers: it receives them, stores them
/// and hands them back, so the bit pattern is all it needs.
#[derive(Debug, Clone, Copy, PartialEq, Eq, Structural)]
pub struct Number {
    pub bits: u32,
}

/// A variable and the number last assigned to it.
struct Binding {
    name: String,
    value: Number,
}

/// The variables of a session: each name with the number last assigned to it.
pub struct Environment {
    /// One binding for each name.
    bindings: Vec<Binding>,
}

impl View for Environment {
    type V = Map<Seq<char>, Number>;

    /// The variables as a map from name to number.
    closed spec fn view(&self) -> Map<Seq<char>, Number> {
        Map::new(
            |name: Seq<char>| self.binds(name),
            |name: Seq<char>| self.bindings[self.position(name)].value,
        )
    }
}

impl Environment {
    #[verifier::type_invariant]
    spec fn names_differ(self) -> bool {
        forall|i: int, j: int|
            0 <= i < j < self.bindings.len() ==> self.bindings[i].name@ != self.bindings[j].name@
    }

    spec fn binds(self, name: Seq<char>) -> bool {
        exists|i: int| 0 <= i < self.bindings.len() && #[trigger] self.bindings[i].name@ == name
    }

    spec fn position(self, name: Seq<char>) -> int {
        choose|i: int| 0 <= i < self.bindings.len() && #[trigger] self.bindings[i].name@ == name
    }

    /// An environment without variables.
    pub fn new() -> (env: Environment)
        ensures
            env@ == Map::<Seq<char>, Number>::empty(),
    {
        let env = Environment { bindings: Vec::new() };
        assert(env@ =~= Map::<Seq<char>, Number>::empty());
        env
    }

    /// The number that `name` holds, if it was ever assigned.
    pub fn get(&self, name: &str) -> (value: Option<Number>)
        ensures
            value == if self@.contains_key(name@) {
                Some(self@[name@])
            } else {
                None
            },
    {
        proof {
            use_type_invariant(self);
        }
        let key = name.to_owned();
        let n = self.bindings.len();
        let mut i: usize = 0;
        while i < n
            invariant
                i <= n,
                n == self.bindings.len(),
                key@ == name@,
                self.names_differ(),
                forall|k: int| 0 <= k < i ==> self.bindings[k].name@ != name@,
            decreases n - i,
        {
            if self.bindings[i].name == key {
                assert(self.binds(name@));
                assert(self.position(name@) == i);
                return Some(self.bindings[i].value);
            }
            i += 1;
        }
        assert(!self.binds(name@));
        None
    }

    /// Assigns `value` to `name`, in place of what it held before.
    pub fn insert(&mut self, name: &str, value: Number)
        ensures
            final(self)@ == old(self)@.insert(name@, value),
    {
        proof {
            use_type_invariant(&*self);
        }
        let ghost before = *self;
        let key = name.to_owned();
        let mut bindings: Vec<Binding> = Vec::new();
        std::mem::swap(&mut self.bindings, &mut bindings);
        let n = bindings.len();
        let mut i: usize = 0;
        while i < n && !(bindings[i].name == key)
            invariant
                i <= n,
                n == bindings.len(),
                key@ == name@,
                bindings == before.bindings,
                forall|k: int| 0 <= k < i ==> bindings[k].name@ != name@,
            decreases n - i,
        {
            i += 1;
        }
        if i < n {
            bindings.set(i, Binding { name: key, value });
        } else {
            bindings.push(Binding { name: key, value });
        }
        proof {
            assert(bindings[i as int].name@ == name@ && bindings[i as int].value == value);
            assert forall|k: int| 0 <= k < n implies (#[trigger] bindings[k]).name@
                == before.bindings[k].name@ by {}
            assert forall|k: int| 0 <= k < n && k != i implies #[trigger] bindings[k]
                == before.bindings[k] by {}
        }
        self.bindings = bindings;
        proof {
            let after = *self;
            assert forall|other: Seq<char>|
                after.binds(other) <==> (other == name@ || before.binds(other)) by {
                if before.binds(other) {
                    let k = before.position(other);
                    assert(after.bindings[k].name@ == other);
                }
                if other == name@ {
                    assert(after.bindings[i as int].name@ == other);
                }
                if after.binds(other) && other != name@ {
                    let k = after.position(other);
                    assert(before.bindings[k].name@ == other);
                }
            }
            assert forall|other: Seq<char>| after.binds(other) implies after.bindings[after.position(
                other,
            )].value == (if other == name@ {
                value
            } else {
                before.bindings[before.position(other)].value
            }) by {
                let k = after.position(other);
                if other == name@ {
                    assert(after.bindings[i as int].name@ == other);
                    assert(k == i);
                } else {
                    assert(before.bindings[k].name@ == other);
                    let j = before.position(other);
                    assert(after.bindings[j].name@ == other);
                    assert(j == k);
                }
            }
            assert(after@ =~= before@.insert(name@, value));
        }
    }
}

} // verus!
