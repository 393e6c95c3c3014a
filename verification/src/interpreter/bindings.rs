//! Association lists from keys to values, in insertion order.
//!
//! Binding a key that is already bound replaces its value in place, so no
//! key occurs twice. Scope frames bind names this way.
use vstd::prelude::*;
use crate::interpreter::LuaValue;
use crate::interpreter::Val;

verus! {

/// The first position at or after `from` whose name is `name`, or the length
/// of the list when there is none.
pub open spec fn assoc_index_from<K>(s: Seq<(K, Val)>, name: K, from: int) -> int
    decreases s.len() - from,
{
    if from < 0 || from >= s.len() {
        s.len() as int
    } else if s[from].0 == name {
        from
    } else {
        assoc_index_from(s, name, from + 1)
    }
}

/// The position of the key `name` in the list, or the length of the list.
pub open spec fn assoc_index<K>(s: Seq<(K, Val)>, name: K) -> int {
    assoc_index_from(s, name, 0)
}

/// The value bound to `name`, if any.
pub open spec fn assoc_get<K>(s: Seq<(K, Val)>, name: K) -> Option<Val> {
    let i = assoc_index(s, name);
    if i < s.len() {
        Some(s[i].1)
    } else {
        None
    }
}

/// The list with `name` bound to `value`.
pub open spec fn assoc_set<K>(s: Seq<(K, Val)>, name: K, value: Val) -> Seq<(K, Val)> {
    let i = assoc_index(s, name);
    if i < s.len() {
        s.update(i, (name, value))
    } else {
        s.push((name, value))
    }
}

/// No name occurs twice.
pub open spec fn assoc_distinct<K>(s: Seq<(K, Val)>) -> bool {
    forall|i: int, j: int| 0 <= i < j < s.len() ==> s[i].0 != s[j].0
}

/// What `assoc_index_from` finds: a position in range that holds the name,
/// with no earlier one, or the length when no position holds it.
pub proof fn lemma_assoc_index_from<K>(s: Seq<(K, Val)>, name: K, from: int)
    requires
        0 <= from <= s.len(),
    ensures
        from <= assoc_index_from(s, name, from) <= s.len(),
        assoc_index_from(s, name, from) < s.len() ==> s[assoc_index_from(s, name, from)].0 == name,
        forall|k: int| from <= k < assoc_index_from(s, name, from) ==> s[k].0 != name,
    decreases s.len() - from,
{
    if from < s.len() && s[from].0 != name {
        lemma_assoc_index_from(s, name, from + 1);
    }
}

/// A name is found at the one position that holds it when none before does.
pub proof fn lemma_assoc_index_is<K>(s: Seq<(K, Val)>, name: K, at: int)
    requires
        0 <= at <= s.len(),
        at < s.len() ==> s[at].0 == name,
        forall|k: int| 0 <= k < at ==> s[k].0 != name,
    ensures
        assoc_index(s, name) == at,
{
    lemma_assoc_index_from(s, name, 0);
}

/// Reading after binding: the bound name gives the new value, every other
/// name gives what it gave before.
pub proof fn lemma_assoc_get_set<K>(s: Seq<(K, Val)>, name: K, value: Val, other: K)
    ensures
        assoc_get(assoc_set(s, name, value), other) == if other == name {
            Some(value)
        } else {
            assoc_get(s, other)
        },
{
    let t = assoc_set(s, name, value);
    let i = assoc_index(s, name);
    let j = assoc_index(s, other);
    lemma_assoc_index_from(s, name, 0);
    lemma_assoc_index_from(s, other, 0);
    if other == name {
        lemma_assoc_index_is(t, other, i);
    } else if j < s.len() {
        lemma_assoc_index_is(t, other, j);
    } else {
        lemma_assoc_index_is(t, other, t.len() as int);
    }
}

/// Binding keeps the names distinct, and adds at most one entry.
pub proof fn lemma_assoc_set_distinct<K>(s: Seq<(K, Val)>, name: K, value: Val)
    requires
        assoc_distinct(s),
    ensures
        assoc_distinct(assoc_set(s, name, value)),
        assoc_set(s, name, value).len() == if assoc_get(s, name) is Some {
            s.len()
        } else {
            s.len() + 1
        },
{
    lemma_assoc_index_from(s, name, 0);
}

/// Names bound to values.
#[derive(Debug, PartialEq, Clone)]
pub struct Bindings<'a> {
    pub entries: Vec<(String, LuaValue<'a>)>,
}

impl<'a> View for Bindings<'a> {
    type V = Seq<(Seq<char>, Val)>;

    open spec fn view(&self) -> Seq<(Seq<char>, Val)> {
        Seq::new(self.entries@.len(), |i: int| (self.entries@[i].0@, self.entries@[i].1@))
    }
}

impl<'a> Bindings<'a> {
    pub fn new() -> (b: Self)
        ensures
            b@ == Seq::<(Seq<char>, Val)>::empty(),
            assoc_distinct(b@),
    {
        let b = Bindings { entries: Vec::new() };
        assert(b@ =~= Seq::<(Seq<char>, Val)>::empty());
        b
    }

    /// The number of bound names.
    pub fn len(&self) -> (n: usize)
        ensures
            n == self@.len(),
    {
        self.entries.len()
    }

    /// The position of `name`, or the number of entries when it is not bound.
    pub fn find(&self, name: &String) -> (i: usize)
        ensures
            i == assoc_index(self@, name@),
            i <= self@.len(),
            i < self@.len() ==> self@[i as int].0 == name@,
    {
        let mut i: usize = 0;
        while i < self.entries.len()
            invariant
                0 <= i <= self.entries.len(),
                assoc_index(self@, name@) == assoc_index_from(self@, name@, i as int),
            decreases self.entries.len() - i,
        {
            if self.entries[i].0 == *name {
                return i;
            }
            i += 1;
        }
        i
    }

    /// The value bound to `name`, if any.
    pub fn get(&self, name: &String) -> (r: Option<LuaValue<'a>>)
        ensures
            r is Some == assoc_get(self@, name@) is Some,
            r matches Some(v) ==> assoc_get(self@, name@) == Some(v@),
    {
        let i: usize = self.find(name);
        if i < self.entries.len() {
            Some(self.entries[i].1.clone_rc())
        } else {
            None
        }
    }

    /// Whether `name` is bound.
    pub fn contains(&self, name: &String) -> (r: bool)
        ensures
            r == assoc_get(self@, name@) is Some,
    {
        self.find(name) < self.entries.len()
    }

    /// Binds `name` to `value`, replacing an earlier binding of the name.
    pub fn set(&mut self, name: String, value: LuaValue<'a>)
        ensures
            final(self)@ == assoc_set(old(self)@, name@, value@),
            assoc_distinct(old(self)@) ==> assoc_distinct(final(self)@),
    {
        proof {
            if assoc_distinct(self@) {
                lemma_assoc_set_distinct(self@, name@, value@);
            }
        }
        let i: usize = self.find(&name);
        if i < self.entries.len() {
            self.entries[i] = (name, value);
        } else {
            self.entries.push((name, value));
        }
        assert(final(self)@ =~= assoc_set(old(self)@, name@, value@));
    }
}

} // verus!
