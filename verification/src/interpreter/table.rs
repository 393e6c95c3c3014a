//! The table store: a mutable mapping from scalar keys to values.
use vstd::prelude::*;
use std::collections::HashMap;
use crate::interpreter::bindings::lemma_assoc_index_is;
use crate::interpreter::LuaVal;
use crate::interpreter::LuaValue;
use crate::interpreter::Val;
use crate::interpreter::ASTExecError;
use crate::interpreter::display_text;
use vstd::string::StringExecFns;
use crate::interpreter::bindings::assoc_index;
use crate::interpreter::bindings::assoc_index_from;
use crate::interpreter::bindings::assoc_get;
use crate::interpreter::bindings::assoc_set;
use crate::interpreter::bindings::assoc_distinct;
use crate::interpreter::bindings::lemma_assoc_set_distinct;
use crate::interpreter::number::payload_bits;
use crate::interpreter::number::int_as_bits;
use crate::interpreter::number::bits_from_bytes;
use crate::interpreter::number::bytes_from_int;
use crate::interpreter::float::float_is_whole;
use crate::interpreter::float::float_floor;
use crate::interpreter::float::float_floor_i64;

verus! {

/// The key of a table slot: a string, or the eight-byte payload of a number.
#[derive(Debug, Eq, PartialEq, Hash, Clone)]
pub enum TableKey {
    String(String),
    Number([u8; 8]),
}

/// A table key as the contracts see it.
pub enum Key {
    Str(Seq<char>),
    /// The 64-bit payload of a numeric key.
    Num(u64),
}

impl View for TableKey {
    type V = Key;

    open spec fn view(&self) -> Key {
        match *self {
            TableKey::String(s) => Key::Str(s@),
            TableKey::Number(bytes) => Key::Num(payload_bits(bytes)),
        }
    }
}

/// The key that stands for a whole number.
pub open spec fn int_key(i: i64) -> Key {
    Key::Num(int_as_bits(i))
}

impl Val {
    /// The slot that a value used as a key names, if it can be a key at all.
    /// A float with a whole value names the slot of the equal integer.
    pub open spec fn as_key(self) -> Option<Key> {
        match self {
            Val::Num(bits, true) => if float_is_whole(bits) {
                Some(int_key(float_floor_i64(bits)))
            } else {
                Some(Key::Num(bits))
            },
            Val::Num(bits, false) => Some(Key::Num(bits)),
            Val::Str(s) => Some(Key::Str(s)),
            _ => None,
        }
    }
}

/// A table as the contracts see it: its entries in insertion order, no key
/// twice.
pub type TableView = Seq<(Key, Val)>;

/// Whether the table holds a value other than `nil` at the whole-number key `i`.
pub open spec fn usable_at(t: TableView, i: int) -> bool {
    &&& i64::MIN <= i <= i64::MAX
    &&& assoc_get(t, int_key(i as i64)) matches Some(v)
    &&& !(v is Nil)
}

/// What the length operator gives for a table: the whole-number keys from
/// 1 to `b` all hold a value, and key `b + 1` holds none, unless `b` is the
/// number of entries, where the scan ends in any case.
pub open spec fn is_border(t: TableView, b: int) -> bool {
    &&& 0 <= b <= t.len()
    &&& forall|i: int| 1 <= i <= b ==> usable_at(t, i)
    &&& b < t.len() ==> !usable_at(t, b + 1)
}

/// The scan of the length operator from `idx` on: it stops at the first key
/// that holds no value and gives the key before it; past the number of
/// entries it gives that number.
pub open spec fn scan_border(t: TableView, idx: int) -> int
    decreases t.len() - idx + 1,
{
    if idx > t.len() {
        t.len() as int
    } else if !usable_at(t, idx) {
        idx - 1
    } else {
        scan_border(t, idx + 1)
    }
}

/// What the length operator gives for a table.
pub open spec fn border_of(t: TableView) -> int {
    scan_border(t, 1)
}

/// The scan ends at the border.
pub proof fn lemma_scan_border(t: TableView, idx: int)
    requires
        1 <= idx <= t.len() + 1,
        forall|i: int| 1 <= i < idx ==> usable_at(t, i),
    ensures
        is_border(t, scan_border(t, idx)),
    decreases t.len() - idx + 1,
{
    if idx <= t.len() && usable_at(t, idx) {
        lemma_scan_border(t, idx + 1);
    }
}

/// `border_of` is the border.
pub proof fn lemma_border_of(t: TableView)
    ensures
        is_border(t, border_of(t)),
{
    lemma_scan_border(t, 1);
}

/// The message for a value that cannot be a key.
pub open spec fn msg_bad_key(key: Val) -> Seq<char> {
    "Cannot add '"@ + display_text(key) + "' as key into a table"@
}

/// A table has one border only.
pub proof fn lemma_border_is_unique(t: TableView, a: int, b: int)
    requires
        is_border(t, a),
        is_border(t, b),
    ensures
        a == b,
{
    if a < b {
        assert(usable_at(t, a + 1));
    } else if b < a {
        assert(usable_at(t, b + 1));
    }
}

/// An empty table has border 0.
pub proof fn lemma_border_of_empty_table(t: TableView)
    requires
        t.len() == 0,
    ensures
        is_border(t, 0),
        border_of(t) == 0,
{
}

/// A table of `n` entries whose keys from 1 to `n` all hold a value has
/// border `n`.
pub proof fn lemma_border_of_full_table(t: TableView)
    requires
        forall|i: int| 1 <= i <= t.len() ==> usable_at(t, i),
    ensures
        is_border(t, t.len() as int),
        border_of(t) == t.len(),
{
    lemma_border_of(t);
    lemma_border_is_unique(t, t.len() as int, border_of(t));
}

/// A table whose key `k`, not above the number of entries, holds no value,
/// while the keys from 1 to `k - 1` do, has border `k - 1`.
pub proof fn lemma_border_at_first_gap(t: TableView, k: int)
    requires
        1 <= k <= t.len(),
        !usable_at(t, k),
        forall|i: int| 1 <= i < k ==> usable_at(t, i),
    ensures
        is_border(t, k - 1),
        border_of(t) == k - 1,
{
    lemma_border_of(t);
    lemma_border_is_unique(t, k - 1, border_of(t));
}

/// A float with a whole value and the integer equal to it name the same
/// slot: what is stored under one is read under the other.
pub proof fn lemma_whole_float_shares_integer_key(bits: u64, i: i64, t: TableView, v: Val)
    requires
        float_is_whole(bits),
        float_floor(bits) == i,
    ensures
        Val::Num(bits, true).as_key() == Val::Num(int_as_bits(i), false).as_key(),
        Val::Num(bits, true).as_key() == Some(int_key(i)),
        assoc_get(assoc_set(t, Val::Num(bits, true).as_key()->Some_0, v), int_key(i)) == Some(v),
        assoc_get(assoc_set(t, int_key(i), v), Val::Num(bits, true).as_key()->Some_0) == Some(v),
{
    crate::interpreter::bindings::lemma_assoc_get_set(t, int_key(i), v, int_key(i));
}

/// A table: its entries in insertion order, and for the numeric keys a
/// map from the key's payload to the position of its entry.
#[derive(Debug, PartialEq)]
pub struct LuaTable<'a> {
    entries: Vec<(TableKey, LuaValue<'a>)>,
    index: HashMap<u64, usize>,
}

impl<'a> View for LuaTable<'a> {
    type V = TableView;

    closed spec fn view(&self) -> TableView {
        entries_view(self.entries@)
    }
}

/// The entries as the contracts see them.
spec fn entries_view<'a>(entries: Seq<(TableKey, LuaValue<'a>)>) -> TableView {
    Seq::new(entries.len(), |i: int| (entries[i].0@, entries[i].1@))
}

broadcast use vstd::std_specs::hash::group_hash_axioms;

/// The key of the entry at a position.
spec fn entry_key<'a>(entries: Seq<(TableKey, LuaValue<'a>)>, i: int) -> Key {
    entries[i].0@
}

/// The map knows the position of every entry with a numeric key.
spec fn indexes<'a>(index: Map<u64, usize>, entries: Seq<(TableKey, LuaValue<'a>)>) -> bool {
    forall|i: int|
        0 <= i < entries.len() ==> match #[trigger] entry_key(entries, i) {
            Key::Num(k) => index.contains_key(k) && index[k] == i,
            Key::Str(_) => true,
        }
}

impl<'a> LuaTable<'a> {
    /// The key of the entry at a position.
    spec fn key_at(&self, i: int) -> Key {
        entry_key(self.entries@, i)
    }

    /// The map knows every numeric key, and no key occurs twice.
    #[verifier::type_invariant]
    spec fn indexed(&self) -> bool {
        indexes(self.index@, self.entries@) && assoc_distinct(entries_view(self.entries@))
    }
}

/// A copy of a key.
pub fn copy_key(key: &TableKey) -> (copy: TableKey)
    ensures
        copy@ == key@,
{
    match key {
        TableKey::String(name) => TableKey::String(name.clone()),
        TableKey::Number(bytes) => TableKey::Number(*bytes),
    }
}

impl<'a> Clone for LuaTable<'a> {
    /// A table of its own with the same entries; the values are shared.
    fn clone(&self) -> (copy: Self)
        ensures
            copy@ == self@,
            assoc_distinct(copy@),
    {
        proof {
            use_type_invariant(self);
        }
        let mut entries: Vec<(TableKey, LuaValue<'a>)> = Vec::new();
        let mut i: usize = 0;
        while i < self.entries.len()
            invariant
                0 <= i <= self.entries.len(),
                entries@.len() == i,
                forall|k: int|
                    0 <= k < i ==> (#[trigger] entries@[k]).0@ == self.entries@[k].0@
                        && entries@[k].1 == self.entries@[k].1,
            decreases self.entries.len() - i,
        {
            entries.push((copy_key(&self.entries[i].0), self.entries[i].1.clone_rc()));
            i += 1;
        }
        let index = self.index.clone();
        proof {
            assert forall|k: int| 0 <= k < entries@.len() implies match #[trigger] entry_key(
                entries@,
                k,
            ) {
                Key::Num(n) => index@.contains_key(n) && index@[n] == k,
                Key::Str(_) => true,
            } by {
                assert(entry_key(entries@, k) == entry_key(self.entries@, k));
            }
        }
        assert(entries_view(entries@) =~= self@) by {
            assert forall|k: int| 0 <= k < entries@.len() implies entries_view(entries@)[k]
                == self@[k] by {
                assert(entry_key(entries@, k) == entry_key(self.entries@, k));
            }
        }
        let copy = LuaTable { entries, index };
        copy
    }
}

impl<'a> Default for LuaTable<'a> {
    fn default() -> (t: Self)
        ensures
            t@ == Seq::<(Key, Val)>::empty(),
            assoc_distinct(t@),
    {
        Self::new()
    }
}

/// Whether two keys name the same slot.
pub fn same_key(a: &TableKey, b: &TableKey) -> (r: bool)
    ensures
        r == (a@ == b@),
{
    match a {
        TableKey::String(s) => match b {
            TableKey::String(t) => {
                let r: bool = *s == *t;
                r
            },
            TableKey::Number(_) => false,
        },
        TableKey::Number(m) => match b {
            TableKey::String(_) => false,
            TableKey::Number(n) => bits_from_bytes(m) == bits_from_bytes(n),
        },
    }
}

/// The slot that `key` names, or nothing when the value cannot be a key.
pub fn key_of<'a>(key: &LuaValue<'a>) -> (r: Option<TableKey>)
    ensures
        r is Some == key@.as_key() is Some,
        r matches Some(k) ==> key@.as_key() == Some(k@),
{
    match &*key.0 {
        LuaVal::LuaNum(num_bytes, is_float) => {
            let bits: u64 = bits_from_bytes(num_bytes);
            if *is_float && !crate::interpreter::float::is_nan(bits)
                && !crate::interpreter::float::is_infinite(bits)
                && !crate::interpreter::float::has_fraction(bits) {
                Some(TableKey::Number(bytes_from_int(crate::interpreter::float::floor_i64(bits))))
            } else {
                Some(TableKey::Number(*num_bytes))
            }
        },
        LuaVal::LuaString(name) => Some(TableKey::String(name.clone())),
        _ => None,
    }
}

/// The error for a value that cannot be a key.
pub fn describe_bad_key<'a>(key: &LuaValue<'a>) -> (e: ASTExecError)
    ensures
        e@ == msg_bad_key(key@),
{
    let mut msg = String::from_str("Cannot add '");
    let shown = key.to_string();
    msg.append(shown.as_str());
    msg.append("' as key into a table");
    ASTExecError(msg)
}

impl<'a> LuaTable<'a> {
    pub fn new() -> (t: Self)
        ensures
            t@ == Seq::<(Key, Val)>::empty(),
            assoc_distinct(t@),
    {
        let entries: Vec<(TableKey, LuaValue<'a>)> = Vec::new();
        assert(entries_view(entries@) =~= Seq::<(Key, Val)>::empty());
        let t = LuaTable { entries, index: HashMap::new() };
        t
    }

    /// The number of entries, which is the number of keys: no key occurs
    /// twice.
    pub fn len(&self) -> (n: usize)
        ensures
            n == self@.len(),
            assoc_distinct(self@),
    {
        proof {
            use_type_invariant(self);
        }
        self.entries.len()
    }

    /// The position of `key`, or the number of entries when the key is absent.
    /// A numeric key is looked up in the map, a name is searched for.
    fn find(&self, key: &TableKey) -> (i: usize)
        ensures
            i == assoc_index(self@, key@),
            i <= self@.len(),
            i < self@.len() ==> self.key_at(i as int) == key@,
    {
        proof {
            use_type_invariant(self);
        }
        match key {
            TableKey::Number(bytes) => {
                let bits: u64 = bits_from_bytes(bytes);
                let len: usize = self.entries.len();
                let at: usize = match self.index.get(&bits) {
                    Some(pos) => *pos,
                    None => len,
                };
                if at < len && same_key(&self.entries[at].0, key) {
                    proof {
                        assert forall|k: int| 0 <= k < at implies self@[k].0 != key@ by {
                            assert(self.key_at(k) == self@[k].0);
                        }
                        lemma_assoc_index_is(self@, key@, at as int);
                    }
                    at
                } else {
                    proof {
                        assert forall|k: int| 0 <= k < len implies self@[k].0 != key@ by {
                            assert(self.key_at(k) == self@[k].0);
                        }
                        lemma_assoc_index_is(self@, key@, len as int);
                    }
                    len
                }
            },
            TableKey::String(_) => {
                let mut i: usize = 0;
                while i < self.entries.len()
                    invariant
                        0 <= i <= self.entries.len(),
                        assoc_index(self@, key@) == assoc_index_from(self@, key@, i as int),
                    decreases self.entries.len() - i,
                {
                    if same_key(&self.entries[i].0, key) {
                        return i;
                    }
                    i += 1;
                }
                i
            },
        }
    }

    /// Stores `val` in the slot that `key` names.
    pub fn put(&mut self, key: TableKey, val: LuaValue<'a>)
        ensures
            final(self)@ == assoc_set(old(self)@, key@, val@),
            assoc_distinct(final(self)@),
    {
        let at: usize = self.find(&key);
        proof {
            use_type_invariant(&*self);
        }
        let ghost before = *self;
        let mut entries: Vec<(TableKey, LuaValue<'a>)> = Vec::new();
        let mut index: HashMap<u64, usize> = HashMap::new();
        core::mem::swap(&mut self.entries, &mut entries);
        core::mem::swap(&mut self.index, &mut index);
        if at < entries.len() {
            entries[at] = (key, val);
        } else {
            match &key {
                TableKey::Number(bytes) => {
                    proof {
                        crate::interpreter::bindings::lemma_assoc_index_from(before@, key@, 0);
                        assert forall|k: int| 0 <= k < before.entries@.len() implies before.key_at(k)
                            != key@ by {
                            assert(before.key_at(k) == before@[k].0);
                        }
                    }
                    index.insert(bits_from_bytes(bytes), at);
                },
                TableKey::String(_) => {},
            }
            entries.push((key, val));
        }
        proof {
            assert forall|k: int| 0 <= k < entries@.len() implies match #[trigger] entry_key(
                entries@,
                k,
            ) {
                Key::Num(n) => index@.contains_key(n) && index@[n] == k,
                Key::Str(_) => true,
            } by {
                if k < before.entries@.len() {
                    assert(before.key_at(k) == entry_key(entries@, k));
                }
            }
            assert(indexes(index@, entries@));
            assert(entries_view(entries@) =~= assoc_set(before@, key@, val@));
            lemma_assoc_set_distinct(before@, key@, val@);
        }
        core::mem::swap(&mut self.index, &mut index);
        core::mem::swap(&mut self.entries, &mut entries);
    }

    /// Stores `val` under `key`. A number or a string can be a key; a float
    /// with a whole value is the key of the equal integer. Any other key is
    /// refused and the table stays as it is.
    pub fn insert(&mut self, key: LuaValue<'a>, val: LuaValue<'a>) -> (r: Result<(), ASTExecError>)
        ensures
            match key@.as_key() {
                Some(k) => r is Ok && final(self)@ == assoc_set(old(self)@, k, val@),
                None => r matches Err(e) && e@ == msg_bad_key(key@) && final(self)@ == old(self)@,
            },
            assoc_distinct(final(self)@),
    {
        proof {
            use_type_invariant(&*self);
        }
        match key_of(&key) {
            Some(k) => {
                self.put(k, val);
                Ok(())
            },
            None => Err(describe_bad_key(&key)),
        }
    }

    /// Stores `val` under a name.
    pub fn insert_ident(&mut self, key: String, val: LuaValue<'a>)
        ensures
            final(self)@ == assoc_set(old(self)@, Key::Str(key@), val@),
            assoc_distinct(final(self)@),
    {
        self.put(TableKey::String(key), val);
    }

    /// Stores `val` under a whole number.
    pub fn insert_int(&mut self, key: i64, val: LuaValue<'a>)
        ensures
            final(self)@ == assoc_set(old(self)@, int_key(key), val@),
            assoc_distinct(final(self)@),
    {
        self.put(TableKey::Number(bytes_from_int(key)), val);
    }

    /// The value stored in the slot, if the slot exists.
    pub fn get(&self, key: TableKey) -> (r: Option<LuaValue<'a>>)
        ensures
            r is Some == assoc_get(self@, key@) is Some,
            r matches Some(v) ==> assoc_get(self@, key@) == Some(v@),
    {
        let i: usize = self.find(&key);
        if i < self.entries.len() {
            Some(self.entries[i].1.clone_rc())
        } else {
            None
        }
    }

    /// The length of the table as the length operator gives it: the scan
    /// walks the whole-number keys from 1 and stops at the first that is
    /// absent or `nil`; the key before it is the result. The scan does not go
    /// past the number of entries.
    pub fn calculate_border(&self) -> (border: usize)
        ensures
            is_border(self@, border as int),
            border == border_of(self@),
    {
        let len: usize = self.entries.len();
        let mut idx: usize = 0;
        while idx < len
            invariant
                0 <= idx <= len,
                len == self@.len(),
                forall|i: int| 1 <= i <= idx ==> usable_at(self@, i),
            decreases len - idx,
        {
            let next: usize = idx + 1;
            if next as u64 > 0x7fff_ffff_ffff_ffff {
                proof {
                    assert(!usable_at(self@, next as int));
                    lemma_border_at_first_gap(self@, next as int);
                }
                return idx;
            }
            let key = TableKey::Number(bytes_from_int(next as i64));
            assert(key@ == int_key(next as i64));
            let gap: bool = match self.get(key) {
                None => true,
                Some(v) => v.is_nil(),
            };
            if gap {
                proof {
                    assert(!usable_at(self@, next as int));
                    lemma_border_at_first_gap(self@, next as int);
                }
                return idx;
            }
            assert(usable_at(self@, next as int));
            idx = next;
        }
        proof {
            lemma_border_of_full_table(self@);
        }
        idx
    }
}

} // verus!
