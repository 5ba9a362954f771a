//! The keyed store of module values still waiting for their configurator.
use vstd::prelude::*;
use vstd::pervasive::VecAdditionalExecFns;
use vstd::string::StringExecFns;

verus! {

/// A failed lookup of a module value.
#[derive(Debug, PartialEq, Eq)]
pub enum BindError {
    /// No unit with this key holds a value in the store.
    NotFound(String),
}

/// The module values of the units not configured yet, by key.
pub struct ModuleBinder<M> {
    keys: Vec<String>,
    modules: Vec<Option<M>>,
}

/// The index of `key` in `keys`, if it is there.
pub open spec fn index_of(keys: Seq<Seq<char>>, key: Seq<char>) -> Option<int> {
    if keys.contains(key) {
        Some(choose|i: int| 0 <= i < keys.len() && keys[i] == key)
    } else {
        None
    }
}

/// In a sequence without duplicates, `index_of` finds the one index holding the key.
pub proof fn lemma_index_of_unique(keys: Seq<Seq<char>>, key: Seq<char>, i: int)
    requires
        keys.no_duplicates(),
        0 <= i < keys.len(),
        keys[i] == key,
    ensures
        index_of(keys, key) == Some(i),
{
    assert(keys.contains(key));
}

impl<M> ModuleBinder<M> {
    /// The key of each slot.
    pub closed spec fn keys(&self) -> Seq<Seq<char>> {
        self.keys@.map_values(|k: String| k@)
    }

    /// The value of each slot, `None` once its unit has taken it.
    pub closed spec fn slots(&self) -> Seq<Option<M>> {
        self.modules@
    }

    /// One slot per key, and no key twice.
    pub open spec fn wf(&self) -> bool {
        self.keys().len() == self.slots().len() && self.keys().no_duplicates()
    }

    #[verifier::type_invariant]
    spec fn slot_per_key(&self) -> bool {
        self.wf()
    }

    /// The value still held under `key`, if any.
    pub open spec fn resident(&self, key: Seq<char>) -> Option<M> {
        match index_of(self.keys(), key) {
            Some(i) => self.slots()[i],
            None => None,
        }
    }

    /// An empty store.
    pub fn new() -> (r: Self)
        ensures
            r.wf(),
            r.keys().len() == 0,
            r.slots().len() == 0,
    {
        let r = ModuleBinder { keys: Vec::new(), modules: Vec::new() };
        assert(r.keys() =~= Seq::empty());
        r
    }

    /// The key of slot `i`.
    pub fn key_at(&self, i: usize) -> (k: String)
        requires
            i < self.keys().len(),
        ensures
            k@ == self.keys()[i as int],
    {
        self.keys[i].clone()
    }

    /// The number of slots.
    pub fn len(&self) -> (n: usize)
        ensures
            n == self.keys().len(),
    {
        self.keys.len()
    }

    /// Adds a slot holding `value` under `key`, unless `key` already has one.
    pub(crate) fn insert(&mut self, key: &str, value: M) -> (added: bool)
        ensures
            final(self).wf(),
            added == !old(self).keys().contains(key@),
            added ==> final(self).keys() == old(self).keys().push(key@)
                && final(self).slots() == old(self).slots().push(Some(value)),
            !added ==> final(self).keys() == old(self).keys() && final(self).slots() == old(self).slots(),
    {
        proof {
            use_type_invariant(&*self);
        }
        if self.position(key).is_some() {
            return false;
        }
        let ghost old_keys = self.keys();
        let mut taken = ModuleBinder::new();
        std::mem::swap(self, &mut taken);
        proof {
            use_type_invariant(&taken);
        }
        let ModuleBinder { mut keys, mut modules } = taken;
        keys.push(String::from_str(key));
        modules.push(Some(value));
        proof {
            let now = keys@.map_values(|k: String| k@);
            assert(now =~= old_keys.push(key@));
            assert forall|a: int, b: int| 0 <= a < now.len() && 0 <= b < now.len() && a != b implies now[a] != now[b] by {
                if b == old_keys.len() {
                    assert(old_keys[a] == now[a]);
                } else if a == old_keys.len() {
                    assert(old_keys[b] == now[b]);
                }
            }
        }
        let grown = ModuleBinder { keys, modules };
        *self = grown;
        true
    }

    /// Takes the value out of slot `i`, leaving the slot empty.
    pub(crate) fn take(&mut self, i: usize) -> (r: Option<M>)
        ensures
            final(self).wf(),
            final(self).keys() == old(self).keys(),
            i < old(self).slots().len() ==> r == old(self).slots()[i as int]
                && final(self).slots() == old(self).slots().update(i as int, None),
            i >= old(self).slots().len() ==> r is None && final(self).slots() == old(self).slots(),
    {
        proof {
            use_type_invariant(&*self);
        }
        if i >= self.modules.len() {
            return None;
        }
        let mut taken = ModuleBinder::new();
        std::mem::swap(self, &mut taken);
        proof {
            use_type_invariant(&taken);
        }
        let ModuleBinder { keys, mut modules } = taken;
        let mut slot: Option<M> = None;
        modules.set_and_swap(i, &mut slot);
        *self = ModuleBinder { keys, modules };
        slot
    }

    /// The value held under `key`, for reading or changing it in place.
    pub fn get(&mut self, key: &str) -> (r: Result<&mut M, BindError>)
        ensures
            final(self).keys() == old(self).keys(),
            r is Ok ==> old(self).resident(key@) == Some(*r->Ok_0),
            r is Ok ==> final(self).slots() == old(self).slots().update(
                index_of(old(self).keys(), key@)->0,
                Some(*final(r->Ok_0)),
            ),
            r is Err ==> r->Err_0 == BindError::NotFound(r->Err_0->NotFound_0),
            r is Err ==> r->Err_0->NotFound_0@ == key@,
            r is Err ==> final(self).slots() == old(self).slots(),
            r is Err ==> old(self).resident(key@) is None,
    {
        proof {
            use_type_invariant(&*self);
        }
        match self.position(key) {
            Some(i) => {
                assert(self.keys@[i as int]@ == self.keys()[i as int]);
                proof {
                    lemma_index_of_unique(self.keys(), key@, i as int);
                }
                let ghost before = self.modules@;
                assert(self.resident(key@) == before[i as int]);
                if self.modules[i].is_none() {
                    return Err(BindError::NotFound(String::from_str(key)));
                }
                match self.modules[i].as_mut() {
                    Some(m) => {
                        assert(before[i as int] == Some(*m));
                        Ok(m)
                    },
                    None => {
                        assert(false);
                        Err(BindError::NotFound(String::from_str(key)))
                    },
                }
            },
            None => Err(BindError::NotFound(String::from_str(key))),
        }
    }

    /// The slot of `key`, if one was made for it.
    pub fn position(&self, key: &str) -> (r: Option<usize>)
        ensures
            match r {
                Some(i) => i < self.keys().len() && self.keys()[i as int] == key@,
                None => !self.keys().contains(key@),
            },
    {
        let wanted = String::from_str(key);
        let mut i: usize = 0;
        while i < self.keys.len()
            invariant
                wanted@ == key@,
                i <= self.keys.len(),
                forall|j: int| 0 <= j < i ==> self.keys@[j]@ != key@,
            decreases self.keys.len() - i,
        {
            if self.keys[i] == wanted {
                return Some(i);
            }
            i = i + 1;
        }
        assert(!self.keys().contains(key@)) by {
            if self.keys().contains(key@) {
                let j = choose|j: int| 0 <= j < self.keys().len() && self.keys()[j] == key@;
                assert(self.keys@[j]@ == key@);
            }
        }
        None
    }
}

} // verus!
