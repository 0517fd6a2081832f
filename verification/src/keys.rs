//! Sets and maps of coordinates, slots and players.
//!
//! Every key has a number of its own below the limit of its type. A set or a
//! map holds the numbers in a hash collection; what it holds is stated over the
//! keys themselves.

use crate::fx::{
    map_get, map_get_mut, map_insert, map_keys, map_len, set_clone, set_contains, set_insert,
    set_items, set_len,
};
use crate::player::Player;
use crate::tile::TileClickTarget;
use rustc_hash::{FxHashMap, FxHashSet};
use std::marker::PhantomData;
use vstd::prelude::*;

verus! {

/// A place on the grid: row, then column.
pub type Coordinate = (i8, i8);

/// A type whose values are numbered without gaps from zero.
pub trait Key: Sized {
    /// How many values the type has.
    spec fn spec_limit() -> nat;

    /// The number of a value.
    spec fn spec_code(self) -> nat;

    /// The value with a number.
    spec fn spec_of_code(code: nat) -> Self;

    proof fn lemma_limit()
        ensures
            Self::spec_limit() <= u32::MAX,
    ;

    /// The number of a value is below the limit and leads back to the value.
    proof fn lemma_code(self)
        ensures
            self.spec_code() < Self::spec_limit(),
            Self::spec_of_code(self.spec_code()) == self,
    ;

    /// Every number below the limit is the number of the value it names.
    proof fn lemma_of_code(code: nat)
        requires
            code < Self::spec_limit(),
        ensures
            Self::spec_of_code(code).spec_code() == code,
    ;

    fn code(&self) -> (code: u32)
        ensures
            code == self.spec_code(),
    ;

    fn of_code(code: u32) -> (key: Self)
        requires
            code < Self::spec_limit(),
        ensures
            key == Self::spec_of_code(code as nat),
    ;
}

impl Key for Coordinate {
    open spec fn spec_limit() -> nat {
        65536
    }

    open spec fn spec_code(self) -> nat {
        ((self.0 + 128) * 256 + (self.1 + 128)) as nat
    }

    open spec fn spec_of_code(code: nat) -> Self {
        ((code / 256 - 128) as i8, (code % 256 - 128) as i8)
    }

    proof fn lemma_limit() {
    }

    proof fn lemma_code(self) {
    }

    proof fn lemma_of_code(code: nat) {
    }

    fn code(&self) -> (code: u32) {
        ((self.0 as i32 + 128) * 256 + (self.1 as i32 + 128)) as u32
    }

    fn of_code(code: u32) -> (key: Self) {
        (((code / 256) as i32 - 128) as i8, ((code % 256) as i32 - 128) as i8)
    }
}

impl Key for TileClickTarget {
    open spec fn spec_limit() -> nat {
        5
    }

    open spec fn spec_code(self) -> nat {
        match self {
            TileClickTarget::Top => 0,
            TileClickTarget::Left => 1,
            TileClickTarget::Center => 2,
            TileClickTarget::Right => 3,
            TileClickTarget::Bottom => 4,
        }
    }

    open spec fn spec_of_code(code: nat) -> Self {
        if code == 0 {
            TileClickTarget::Top
        } else if code == 1 {
            TileClickTarget::Left
        } else if code == 2 {
            TileClickTarget::Center
        } else if code == 3 {
            TileClickTarget::Right
        } else {
            TileClickTarget::Bottom
        }
    }

    proof fn lemma_limit() {
    }

    proof fn lemma_code(self) {
    }

    proof fn lemma_of_code(code: nat) {
    }

    fn code(&self) -> (code: u32) {
        match self {
            TileClickTarget::Top => 0,
            TileClickTarget::Left => 1,
            TileClickTarget::Center => 2,
            TileClickTarget::Right => 3,
            TileClickTarget::Bottom => 4,
        }
    }

    fn of_code(code: u32) -> (key: Self) {
        if code == 0 {
            TileClickTarget::Top
        } else if code == 1 {
            TileClickTarget::Left
        } else if code == 2 {
            TileClickTarget::Center
        } else if code == 3 {
            TileClickTarget::Right
        } else {
            TileClickTarget::Bottom
        }
    }
}

impl Key for (Coordinate, TileClickTarget) {
    open spec fn spec_limit() -> nat {
        327680
    }

    open spec fn spec_code(self) -> nat {
        self.0.spec_code() * 5 + self.1.spec_code()
    }

    open spec fn spec_of_code(code: nat) -> Self {
        (Coordinate::spec_of_code(code / 5), TileClickTarget::spec_of_code(code % 5))
    }

    proof fn lemma_limit() {
    }

    proof fn lemma_code(self) {
        self.0.lemma_code();
        self.1.lemma_code();
    }

    proof fn lemma_of_code(code: nat) {
        Coordinate::lemma_of_code(code / 5);
        TileClickTarget::lemma_of_code(code % 5);
    }

    fn code(&self) -> (code: u32) {
        proof {
            self.0.lemma_code();
            self.1.lemma_code();
        }
        self.0.code() * 5 + self.1.code()
    }

    fn of_code(code: u32) -> (key: Self) {
        (Coordinate::of_code(code / 5), TileClickTarget::of_code(code % 5))
    }
}

impl Key for Player {
    open spec fn spec_limit() -> nat {
        2
    }

    open spec fn spec_code(self) -> nat {
        self.spec_index() as nat
    }

    open spec fn spec_of_code(code: nat) -> Self {
        Player::spec_from_index(code as int)
    }

    proof fn lemma_limit() {
    }

    proof fn lemma_code(self) {
    }

    proof fn lemma_of_code(code: nat) {
    }

    fn code(&self) -> (code: u32) {
        match self {
            Player::White => 0,
            Player::Black => 1,
        }
    }

    fn of_code(code: u32) -> (key: Self) {
        if code == 0 {
            Player::White
        } else {
            Player::Black
        }
    }
}

impl Key for Option<Player> {
    open spec fn spec_limit() -> nat {
        3
    }

    open spec fn spec_code(self) -> nat {
        match self {
            None => 0,
            Some(player) => player.spec_code() + 1,
        }
    }

    open spec fn spec_of_code(code: nat) -> Self {
        if code == 0 {
            None
        } else {
            Some(Player::spec_of_code((code - 1) as nat))
        }
    }

    proof fn lemma_limit() {
    }

    proof fn lemma_code(self) {
    }

    proof fn lemma_of_code(code: nat) {
    }

    fn code(&self) -> (code: u32) {
        match self {
            None => 0,
            Some(player) => player.code() + 1,
        }
    }

    fn of_code(code: u32) -> (key: Self) {
        if code == 0 {
            None
        } else {
            Some(Player::of_code(code - 1))
        }
    }
}

/// Two keys with the same number are the same key.
pub proof fn lemma_code_injective<K: Key>(a: K, b: K)
    requires
        a.spec_code() == b.spec_code(),
    ensures
        a == b,
{
    a.lemma_code();
    b.lemma_code();
}

/// A finite set of keys has no more members than the type has values.
pub proof fn lemma_key_set_bound<K: Key>(keys: Set<K>)
    requires
        keys.finite(),
    ensures
        keys.len() <= K::spec_limit(),
{
    K::lemma_limit();
    let encode = |key: K| key.spec_code() as u32;
    assert forall|a: K, b: K| keys.contains(a) && keys.contains(b) && encode(a) == encode(
        b,
    ) implies a == b by {
        a.lemma_code();
        b.lemma_code();
    }
    assert(vstd::relations::injective_on(encode, keys));
    let codes = keys.map(encode);
    vstd::set_lib::lemma_map_size(keys, codes, encode);
    let all = Set::<u32>::range(0u32, K::spec_limit() as u32);
    vstd::set_lib::range_set_properties::<u32>(0u32, K::spec_limit() as u32);
    assert forall|code: u32| codes.contains(code) implies all.contains(code) by {
        let key = choose|key: K| keys.contains(key) && encode(key) == code;
        key.lemma_code();
    }
    assert(codes.subset_of(all));
    vstd::set_lib::lemma_len_subset(codes, all);
}

/// A key type has finitely many values.
pub proof fn lemma_all_keys_finite<K: Key>()
    ensures
        Set::<K>::full().finite(),
        Set::<K>::full().len() <= K::spec_limit(),
{
    K::lemma_limit();
    let raw = Set::<u32>::range(0u32, K::spec_limit() as u32);
    vstd::set_lib::range_set_properties::<u32>(0u32, K::spec_limit() as u32);
    let keys = Set::new(|key: K| raw.contains(key.spec_code() as u32));
    assert forall|key: K| keys.contains(key) by {
        key.lemma_code();
    }
    assert(keys =~= Set::<K>::full());
    lemma_set_of_codes::<K>(raw, keys);
}

/// A finite set of keys of one type.
pub struct KeySet<K: Key> {
    raw: FxHashSet<u32>,
    marker: PhantomData<K>,
}

impl<K: Key> View for KeySet<K> {
    type V = Set<K>;

    closed spec fn view(&self) -> Set<K> {
        if self.well_formed() {
            Set::new(|key: K| self.raw@.contains(key.spec_code() as u32))
        } else {
            Set::empty()
        }
    }
}

impl<K: Key> KeySet<K> {
    #[verifier::type_invariant]
    spec fn well_formed(&self) -> bool {
        &&& self.raw@.finite()
        &&& forall|code: u32| #[trigger] self.raw@.contains(code) ==> code < K::spec_limit()
    }

    /// A set of keys is finite and has no more members than the type has values.
    pub proof fn lemma_finite(&self)
        ensures
            self@.finite(),
            self@.len() <= K::spec_limit(),
    {
        if self.well_formed() {
            lemma_set_of_codes::<K>(self.raw@, self@);
        }
    }

    pub fn new() -> (set: Self)
        ensures
            set@ == Set::<K>::empty(),
            set@.finite(),
    {
        let set = KeySet { raw: FxHashSet::default(), marker: PhantomData };
        assert(set@ =~= Set::<K>::empty());
        set
    }

    pub fn contains(&self, key: &K) -> (found: bool)
        ensures
            found == self@.contains(*key),
    {
        proof {
            use_type_invariant(self);
        }
        set_contains(&self.raw, key.code())
    }

    /// Adds a key; the result says whether it was new.
    pub fn insert(&mut self, key: K) -> (fresh: bool)
        ensures
            final(self)@ == old(self)@.insert(key),
            fresh == !old(self)@.contains(key),
            old(self)@.finite(),
            final(self)@.finite(),
    {
        proof {
            use_type_invariant(&*self);
            key.lemma_code();
            K::lemma_limit();
        }
        let code: u32 = key.code();
        let mut raw: FxHashSet<u32> = FxHashSet::default();
        std::mem::swap(&mut raw, &mut self.raw);
        let fresh = set_insert(&mut raw, code);
        std::mem::swap(&mut raw, &mut self.raw);
        proof {
            assert forall|other: K| #[trigger]
                self@.contains(other) == old(self)@.insert(key).contains(other) by {
                other.lemma_code();
                if other.spec_code() == key.spec_code() {
                    lemma_code_injective(other, key);
                }
            }
            assert(self@ =~= old(self)@.insert(key));
            lemma_set_of_codes::<K>(old(self).raw@, old(self)@);
        }
        fresh
    }

    /// Adds every key of another set.
    pub fn extend(&mut self, other: &KeySet<K>)
        ensures
            final(self)@ == old(self)@.union(other@),
    {
        let keys = other.to_vec();
        let mut i: usize = 0;
        while i < keys.len()
            invariant
                i <= keys@.len(),
                keys@.to_set() == other@,
                forall|key: K| #[trigger]
                    self@.contains(key) <==> old(self)@.contains(key) || exists|j: int|
                        0 <= j < i && keys@[j] == key,
            decreases keys.len() - i,
        {
            let ghost before = self@;
            proof {
                keys@[i as int].lemma_code();
            }
            let moved = K::of_code(keys[i].code());
            self.insert(moved);
            proof {
                assert forall|key: K| #[trigger]
                    self@.contains(key) <==> old(self)@.contains(key) || exists|j: int|
                        0 <= j < i + 1 && keys@[j] == key by {
                    if before.contains(key) && !old(self)@.contains(key) {
                        let j = choose|j: int| 0 <= j < i && keys@[j] == key;
                        assert(0 <= j < i + 1 && keys@[j] == key);
                    }
                    if exists|j: int| 0 <= j < i + 1 && keys@[j] == key {
                        let j = choose|j: int| 0 <= j < i + 1 && keys@[j] == key;
                        if j < i {
                            assert(0 <= j < i && keys@[j] == key);
                        }
                    }
                }
            }
            i += 1;
        }
        proof {
            assert forall|key: K|
                self@.contains(key) == old(self)@.union(other@).contains(key) by {
                if other@.contains(key) {
                    assert(keys@.to_set().contains(key));
                    let j = choose|j: int| 0 <= j < keys@.len() && keys@[j] == key;
                    assert(0 <= j < i && keys@[j] == key);
                }
                if self@.contains(key) && !old(self)@.contains(key) {
                    let j = choose|j: int| 0 <= j < i && keys@[j] == key;
                    assert(keys@.to_set().contains(keys@[j]));
                }
            }
            assert(self@ =~= old(self)@.union(other@));
        }
    }

    /// How many keys the set holds.
    pub fn len(&self) -> (len: usize)
        ensures
            self@.finite(),
            len == self@.len(),
            len <= K::spec_limit(),
    {
        proof {
            use_type_invariant(self);
            lemma_set_of_codes::<K>(self.raw@, self@);
        }
        set_len(&self.raw)
    }

    pub fn is_empty(&self) -> (empty: bool)
        ensures
            empty == (self@ == Set::<K>::empty()),
    {
        let len = self.len();
        proof {
            if len == 0 {
                assert(self@ =~= Set::<K>::empty());
            }
        }
        len == 0
    }

    /// The keys of the set, each once, in an order that is not stated.
    pub fn to_vec(&self) -> (keys: Vec<K>)
        ensures
            keys@.no_duplicates(),
            keys@.to_set() == self@,
            keys@.len() == self@.len(),
            self@.finite(),
    {
        let codes = set_items(&self.raw);
        let mut keys: Vec<K> = Vec::new();
        proof {
            use_type_invariant(self);
            K::lemma_limit();
        }
        for i in 0..codes.len()
            invariant
                codes@.no_duplicates(),
                codes@.to_set() == self.raw@,
                forall|code: u32| #[trigger] self.raw@.contains(code) ==> code < K::spec_limit(),
                keys@.len() == i,
                forall|j: int| 0 <= j < i ==> (#[trigger] keys@[j]).spec_code() == codes@[j],
        {
            assert(codes@.to_set().contains(codes@[i as int]));
            let key = K::of_code(codes[i]);
            proof {
                K::lemma_of_code(codes@[i as int] as nat);
            }
            keys.push(key);
        }
        proof {
            assert forall|a: int, b: int| 0 <= a < keys@.len() && 0 <= b < keys@.len() && a
                != b implies keys@[a] != keys@[b] by {
                assert(keys@[a].spec_code() == codes@[a]);
                assert(keys@[b].spec_code() == codes@[b]);
            }
            assert forall|key: K| keys@.to_set().contains(key) == self@.contains(key) by {
                key.lemma_code();
                if keys@.to_set().contains(key) {
                    let j = choose|j: int| 0 <= j < keys@.len() && keys@[j] == key;
                    assert(keys@[j].spec_code() == codes@[j]);
                    assert(codes@.to_set().contains(codes@[j]));
                }
                if self@.contains(key) {
                    let code = key.spec_code() as u32;
                    assert(codes@.to_set().contains(code));
                    let j = choose|j: int| 0 <= j < codes@.len() && codes@[j] == code;
                    assert(keys@[j].spec_code() == codes@[j]);
                    lemma_code_injective(keys@[j], key);
                }
            }
            assert(keys@.to_set() =~= self@);
            keys@.unique_seq_to_set();
        }
        keys
    }
}

impl<K: Key> Clone for KeySet<K> {
    fn clone(&self) -> (copy: Self)
        ensures
            copy@ == self@,
    {
        proof {
            use_type_invariant(self);
        }
        let copy = KeySet { raw: set_clone(&self.raw), marker: PhantomData };
        assert(copy@ =~= self@);
        copy
    }
}

/// A set of numbers below the limit of a key type has as many members as the
/// set of the keys that they are the numbers of, and no more than the type has values.
proof fn lemma_set_of_codes<K: Key>(raw: Set<u32>, keys: Set<K>)
    requires
        raw.finite(),
        forall|code: u32| #[trigger] raw.contains(code) ==> code < K::spec_limit(),
        keys == Set::new(|key: K| raw.contains(key.spec_code() as u32)),
    ensures
        keys.finite(),
        keys.len() == raw.len(),
        keys.len() <= K::spec_limit(),
{
    K::lemma_limit();
    let decode = |code: u32| K::spec_of_code(code as nat);
    assert forall|a: u32, b: u32| raw.contains(a) && raw.contains(b) && decode(a) == decode(
        b,
    ) implies a == b by {
        K::lemma_of_code(a as nat);
        K::lemma_of_code(b as nat);
    }
    assert(vstd::relations::injective_on(decode, raw));
    assert forall|key: K| raw.map(decode).contains(key) == keys.contains(key) by {
        key.lemma_code();
        if raw.map(decode).contains(key) {
            let code = choose|code: u32| raw.contains(code) && decode(code) == key;
            K::lemma_of_code(code as nat);
        }
        if keys.contains(key) {
            assert(raw.contains(key.spec_code() as u32));
            assert(decode(key.spec_code() as u32) == key);
        }
    }
    assert(raw.map(decode) =~= keys);
    vstd::set_lib::lemma_map_size(raw, keys, decode);
    let all = Set::<u32>::range(0u32, K::spec_limit() as u32);
    vstd::set_lib::range_set_properties::<u32>(0u32, K::spec_limit() as u32);
    assert(raw.subset_of(all));
    vstd::set_lib::lemma_len_subset(raw, all);
}

/// Whether a map from numbers holds only numbers of keys, and finitely many.
pub open spec fn is_coded<K: Key, V>(raw: Map<u32, V>) -> bool {
    &&& raw.dom().finite()
    &&& forall|code: u32| #[trigger] raw.contains_key(code) ==> code < K::spec_limit()
}

/// The map from keys that a map from their numbers stands for.
pub open spec fn keyed<K: Key, V>(raw: Map<u32, V>) -> Map<K, V> {
    if is_coded::<K, V>(raw) {
        Map::new(
            |key: K| raw.contains_key(key.spec_code() as u32),
            |key: K| raw[key.spec_code() as u32],
        )
    } else {
        Map::empty()
    }
}

/// A new value under the number of a key is a new value under the key.
pub proof fn lemma_keyed_insert<K: Key, V>(raw: Map<u32, V>, key: K, value: V)
    requires
        is_coded::<K, V>(raw),
    ensures
        is_coded::<K, V>(raw.insert(key.spec_code() as u32, value)),
        keyed::<K, V>(raw.insert(key.spec_code() as u32, value)) == keyed::<K, V>(raw).insert(
            key,
            value,
        ),
{
    key.lemma_code();
    K::lemma_limit();
    let after = raw.insert(key.spec_code() as u32, value);
    assert forall|other: K|
        keyed::<K, V>(after).contains_key(other) == #[trigger] keyed::<K, V>(raw).insert(
            key,
            value,
        ).contains_key(other) && (keyed::<K, V>(after).contains_key(other) ==> keyed::<K, V>(
            after,
        )[other] == keyed::<K, V>(raw).insert(key, value)[other]) by {
        other.lemma_code();
        if other.spec_code() == key.spec_code() {
            lemma_code_injective(other, key);
        }
    }
    assert(keyed::<K, V>(after) =~= keyed::<K, V>(raw).insert(key, value));
}

/// A finite map from the keys of one type.
pub struct KeyMap<K: Key, V> {
    raw: FxHashMap<u32, V>,
    marker: PhantomData<K>,
}

impl<K: Key, V> View for KeyMap<K, V> {
    type V = Map<K, V>;

    closed spec fn view(&self) -> Map<K, V> {
        keyed::<K, V>(self.raw@)
    }
}

impl<K: Key, V> KeyMap<K, V> {
    #[verifier::type_invariant]
    spec fn well_formed(&self) -> bool {
        is_coded::<K, V>(self.raw@)
    }

    /// A map has finitely many keys, no more than the type has values.
    pub proof fn lemma_finite(&self)
        ensures
            self@.dom().finite(),
            self@.dom().len() <= K::spec_limit(),
    {
        if self.well_formed() {
            assert(self@.dom() =~= Set::new(
                |key: K| self.raw@.dom().contains(key.spec_code() as u32),
            ));
            lemma_set_of_codes::<K>(self.raw@.dom(), self@.dom());
        }
    }

    pub fn new() -> (map: Self)
        ensures
            map@ == Map::<K, V>::empty(),
    {
        let map = KeyMap { raw: FxHashMap::default(), marker: PhantomData };
        assert(map@ =~= Map::<K, V>::empty());
        map
    }

    pub fn get(&self, key: &K) -> (value: Option<&V>)
        ensures
            value == (if self@.contains_key(*key) {
                Some(&self@[*key])
            } else {
                None
            }),
    {
        proof {
            use_type_invariant(self);
        }
        map_get(&self.raw, key.code())
    }

    pub fn contains_key(&self, key: &K) -> (found: bool)
        ensures
            found == self@.contains_key(*key),
    {
        proof {
            use_type_invariant(self);
        }
        map_get(&self.raw, key.code()).is_some()
    }

    /// Stores a value under a key and hands back the value that was there, if any.
    pub fn insert(&mut self, key: K, value: V) -> (before: Option<V>)
        ensures
            final(self)@ == old(self)@.insert(key, value),
            before == (if old(self)@.contains_key(key) {
                Some(old(self)@[key])
            } else {
                None
            }),
    {
        proof {
            use_type_invariant(&*self);
            key.lemma_code();
            K::lemma_limit();
        }
        let code: u32 = key.code();
        let mut raw: FxHashMap<u32, V> = FxHashMap::default();
        std::mem::swap(&mut raw, &mut self.raw);
        let before = map_insert(&mut raw, code, value);
        std::mem::swap(&mut raw, &mut self.raw);
        proof {
            assert forall|other: K|
                self@.contains_key(other) == #[trigger] old(self)@.insert(key, value).contains_key(
                    other,
                ) && (self@.contains_key(other) ==> self@[other] == old(self)@.insert(
                    key,
                    value,
                )[other]) by {
                other.lemma_code();
                if other.spec_code() == key.spec_code() {
                    lemma_code_injective(other, key);
                }
            }
            assert(self@ =~= old(self)@.insert(key, value));
        }
        before
    }

    /// A way to change the value stored under a key, if there is one.
    /// Nothing else in the map changes.
    pub fn get_mut(&mut self, key: &K) -> (value: Option<&mut V>)
        ensures
            match value {
                Some(stored) => old(self)@.contains_key(*key) && *stored == old(self)@[*key]
                    && final(self)@ == old(self)@.insert(*key, *final(stored)),
                None => !old(self)@.contains_key(*key) && final(self)@ == old(self)@,
            },
    {
        proof {
            use_type_invariant(&*self);
            key.lemma_code();
            K::lemma_limit();
            assert forall|value: V|
                is_coded::<K, V>(#[trigger] self.raw@.insert(key.spec_code() as u32, value))
                    && keyed::<K, V>(self.raw@.insert(key.spec_code() as u32, value)) == keyed::<
                    K,
                    V,
                >(self.raw@).insert(*key, value) by {
                lemma_keyed_insert::<K, V>(self.raw@, *key, value);
            }
        }
        let code: u32 = key.code();
        map_get_mut(&mut self.raw, code)
    }

    /// How many keys the map holds.
    pub fn len(&self) -> (len: usize)
        ensures
            self@.dom().finite(),
            len == self@.dom().len(),
            len <= K::spec_limit(),
    {
        proof {
            use_type_invariant(self);
            assert(self@.dom() =~= Set::new(
                |key: K| self.raw@.dom().contains(key.spec_code() as u32),
            ));
            lemma_set_of_codes::<K>(self.raw@.dom(), self@.dom());
        }
        map_len(&self.raw)
    }

    /// The keys of the map, each once, in an order that is not stated.
    pub fn keys(&self) -> (keys: Vec<K>)
        ensures
            keys@.no_duplicates(),
            keys@.to_set() == self@.dom(),
            keys@.len() == self@.dom().len(),
            self@.dom().finite(),
    {
        let codes = map_keys(&self.raw);
        let mut keys: Vec<K> = Vec::new();
        proof {
            use_type_invariant(self);
            K::lemma_limit();
        }
        for i in 0..codes.len()
            invariant
                codes@.no_duplicates(),
                codes@.to_set() == self.raw@.dom(),
                forall|code: u32| #[trigger]
                    self.raw@.contains_key(code) ==> code < K::spec_limit(),
                keys@.len() == i,
                forall|j: int| 0 <= j < i ==> (#[trigger] keys@[j]).spec_code() == codes@[j],
        {
            assert(codes@.to_set().contains(codes@[i as int]));
            let key = K::of_code(codes[i]);
            proof {
                K::lemma_of_code(codes@[i as int] as nat);
            }
            keys.push(key);
        }
        proof {
            assert forall|a: int, b: int| 0 <= a < keys@.len() && 0 <= b < keys@.len() && a
                != b implies keys@[a] != keys@[b] by {
                assert(keys@[a].spec_code() == codes@[a]);
                assert(keys@[b].spec_code() == codes@[b]);
            }
            assert forall|key: K| keys@.to_set().contains(key) == self@.dom().contains(key) by {
                key.lemma_code();
                if keys@.to_set().contains(key) {
                    let j = choose|j: int| 0 <= j < keys@.len() && keys@[j] == key;
                    assert(keys@[j].spec_code() == codes@[j]);
                    assert(codes@.to_set().contains(codes@[j]));
                }
                if self@.dom().contains(key) {
                    let code = key.spec_code() as u32;
                    assert(codes@.to_set().contains(code));
                    let j = choose|j: int| 0 <= j < codes@.len() && codes@[j] == code;
                    assert(keys@[j].spec_code() == codes@[j]);
                    lemma_code_injective(keys@[j], key);
                }
            }
            assert(keys@.to_set() =~= self@.dom());
            keys@.unique_seq_to_set();
        }
        keys
    }
}

impl<K: Key, V: Clone> Clone for KeyMap<K, V> {
    fn clone(&self) -> (copy: Self)
        ensures
            copy@ == self@,
    {
        proof {
            use_type_invariant(self);
        }
        let copy = KeyMap { raw: self.raw.clone(), marker: PhantomData };
        assert(copy@ =~= self@);
        copy
    }
}

} // verus!
