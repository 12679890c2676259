//! The fact model: interned-style name handles, typed values, world states
//! (fact maps), and requirements (predicate maps).

use vstd::prelude::*;

verus! {

use core::cmp::Ordering;
use vstd::string::StrSliceExecFns;

/// A comparable name handle for field keys and string values.
///
/// Equality of two handles is textual equality of the names they were made
/// from, so a handle may stand in for its text everywhere.
#[derive(Debug)]
pub struct UniqueName {
    text: String,
}

impl View for UniqueName {
    type V = Seq<char>;

    closed spec fn view(&self) -> Seq<char> {
        self.text@
    }
}

impl UniqueName {
    /// Makes the canonical handle for the given text.
    pub fn new(string: &str) -> (r: UniqueName)
        ensures
            r@ == string@,
    {
        UniqueName { text: string.to_owned() }
    }

    /// The text this handle stands for.
    pub fn as_str(&self) -> (r: &str)
        ensures
            r@ == self@,
    {
        self.text.as_str()
    }
}

impl Clone for UniqueName {
    fn clone(&self) -> (r: Self)
        ensures
            r == *self,
    {
        UniqueName { text: self.text.clone() }
    }
}

impl PartialEq for UniqueName {
    fn eq(&self, other: &Self) -> (r: bool) {
        self.text == other.text
    }
}

impl Eq for UniqueName {

}

impl vstd::std_specs::cmp::PartialEqSpecImpl for UniqueName {
    open spec fn obeys_eq_spec() -> bool {
        true
    }

    open spec fn eq_spec(&self, other: &Self) -> bool {
        self@ == other@
    }
}

/// How many fixed-point units make one whole number.
pub const NUM_SCALE: i64 = 10000;

/// A totally ordered number, held as a fixed-point count of ten-thousandths.
///
/// `Num { units: 31415 }` stands for 3.1415; `Num::whole(3)` for 3. Numbers
/// compare by their unit count, which is a total order.
#[derive(Clone, Copy, Debug, PartialEq, Eq, Structural)]
pub struct Num {
    pub units: i64,
}

impl View for Num {
    type V = int;

    open spec fn view(&self) -> int {
        self.units as int
    }
}

impl Num {
    /// The number `n`, scaled to fixed-point units.
    pub fn whole(n: i64) -> (r: Num)
        requires
            -922_337_203_685_477 <= n <= 922_337_203_685_477,
        ensures
            r@ == n * (NUM_SCALE as int),
    {
        Num { units: n * NUM_SCALE }
    }

    /// The number holding `units` ten-thousandths.
    pub fn scaled(units: i64) -> (r: Num)
        ensures
            r@ == units as int,
    {
        Num { units }
    }

    /// Addition that clamps at the representable range instead of wrapping.
    pub fn saturating_add(self, other: Num) -> (r: Num)
        ensures
            r@ == sat_add(self@, other@),
    {
        Num { units: self.units.checked_add(other.units).unwrap_or(
            if self.units < 0 {
                i64::MIN
            } else {
                i64::MAX
            },
        ) }
    }

    /// Strictly-less comparison.
    pub fn lt(self, other: Num) -> (r: bool)
        ensures
            r == (self@ < other@),
    {
        self.units < other.units
    }
}

/// The sum of `a` and `b`, clamped to the range of the unit type.
pub open spec fn sat_add(a: int, b: int) -> int {
    if a + b > i64::MAX {
        i64::MAX as int
    } else if a + b < i64::MIN {
        i64::MIN as int
    } else {
        a + b
    }
}

/// The mathematical value of a `Variant`: a tag and a plain value.
pub enum ValueV {
    Bool(bool),
    Str(Seq<char>),
    Num(int),
}

/// A typed fact value: a tagged union of boolean, string and number.
///
/// Values of different tags are never equal and never ordered against each
/// other.
#[derive(Debug)]
pub enum Variant {
    Bool(bool),
    String(UniqueName),
    Number(Num),
}

impl View for Variant {
    type V = ValueV;

    open spec fn view(&self) -> ValueV {
        match self {
            Variant::Bool(b) => ValueV::Bool(*b),
            Variant::String(s) => ValueV::Str(s@),
            Variant::Number(n) => ValueV::Num(n@),
        }
    }
}

impl Clone for Variant {
    fn clone(&self) -> (r: Self)
        ensures
            r == *self,
    {
        match self {
            Variant::Bool(b) => Variant::Bool(*b),
            Variant::String(s) => Variant::String(s.clone()),
            Variant::Number(n) => Variant::Number(*n),
        }
    }
}

impl PartialEq for Variant {
    fn eq(&self, other: &Self) -> (r: bool) {
        match (self, other) {
            (Variant::Bool(a), Variant::Bool(b)) => *a == *b,
            (Variant::String(a), Variant::String(b)) => *a == *b,
            (Variant::Number(a), Variant::Number(b)) => a.units == b.units,
            _ => false,
        }
    }
}

impl Eq for Variant {

}

impl vstd::std_specs::cmp::PartialEqSpecImpl for Variant {
    open spec fn obeys_eq_spec() -> bool {
        true
    }

    open spec fn eq_spec(&self, other: &Self) -> bool {
        self@ == other@
    }
}

impl Default for Variant {
    fn default() -> (r: Self)
        ensures
            r@ == ValueV::Bool(true),
    {
        Variant::Bool(true)
    }
}

/// Values of different tags are never equal, whatever they hold: no boolean
/// equals a string or a number, and no string equals a number.
pub proof fn lemma_cross_type_values_never_equal(a: ValueV, b: ValueV)
    ensures
        a is Bool && !(b is Bool) ==> a != b,
        a is Str && !(b is Str) ==> a != b,
        a is Num && !(b is Num) ==> a != b,
{
}

/// Lexicographic (strict) order on character sequences.
pub open spec fn seq_char_lt(a: Seq<char>, b: Seq<char>) -> bool
    decreases a.len(),
{
    if b.len() == 0 {
        false
    } else if a.len() == 0 {
        true
    } else if a[0] != b[0] {
        (a[0] as u32) < (b[0] as u32)
    } else {
        seq_char_lt(a.drop_first(), b.drop_first())
    }
}

/// No key text occurs twice in a key-value pair sequence.
pub open spec fn keys_unique<V>(s: Seq<(UniqueName, V)>) -> bool {
    forall|i: int, j: int| 0 <= i < j < s.len() ==> s[i].0@ != s[j].0@
}

/// The finite map a key-value pair sequence stands for; on a key collision
/// the later pair wins.
pub open spec fn assoc_map<V: View>(s: Seq<(UniqueName, V)>) -> Map<Seq<char>, V::V>
    decreases s.len(),
{
    if s.len() == 0 {
        Map::empty()
    } else {
        assoc_map(s.drop_last()).insert(s.last().0@, s.last().1@)
    }
}

pub(crate) proof fn lemma_assoc_dom<V: View>(s: Seq<(UniqueName, V)>)
    ensures
        forall|k: Seq<char>| #[trigger] assoc_map(s).contains_key(k) ==> exists|i: int|
            0 <= i < s.len() && s[i].0@ == k,
        forall|i: int| 0 <= i < s.len() ==> assoc_map(s).contains_key(#[trigger] s[i].0@),
    decreases s.len(),
{
    if s.len() > 0 {
        lemma_assoc_dom(s.drop_last());
        assert forall|k: Seq<char>| #[trigger] assoc_map(s).contains_key(k) implies exists|i: int|
            0 <= i < s.len() && s[i].0@ == k by {
            if k != s.last().0@ {
                assert(assoc_map(s.drop_last()).contains_key(k));
                let i = choose|i: int|
                    0 <= i < s.drop_last().len() && s.drop_last()[i].0@ == k;
                assert(s[i] == s.drop_last()[i]);
            } else {
                assert(s[s.len() - 1].0@ == k);
            }
        }
        assert forall|i: int| 0 <= i < s.len() implies assoc_map(s).contains_key(
            #[trigger] s[i].0@,
        ) by {
            if i < s.len() - 1 {
                assert(s.drop_last()[i] == s[i]);
            }
        }
    }
}

pub(crate) proof fn lemma_assoc_get<V: View>(s: Seq<(UniqueName, V)>, i: int)
    requires
        keys_unique(s),
        0 <= i < s.len(),
    ensures
        assoc_map(s).contains_key(s[i].0@),
        assoc_map(s)[s[i].0@] == s[i].1@,
    decreases s.len(),
{
    if i == s.len() - 1 {
    } else {
        assert(keys_unique(s.drop_last())) by {
            assert(forall|m: int, j: int|
                0 <= m < j < s.drop_last().len() ==> s.drop_last()[m] == s[m] && s.drop_last()[j]
                    == s[j]);
        }
        assert(s.drop_last()[i] == s[i]);
        lemma_assoc_get(s.drop_last(), i);
        assert(s[s.len() - 1].0@ != s[i].0@);
    }
}

pub(crate) proof fn lemma_assoc_absent<V: View>(s: Seq<(UniqueName, V)>, k: Seq<char>)
    requires
        forall|i: int| 0 <= i < s.len() ==> s[i].0@ != k,
    ensures
        !assoc_map(s).contains_key(k),
    decreases s.len(),
{
    if s.len() > 0 {
        assert(forall|i: int| 0 <= i < s.drop_last().len() ==> s.drop_last()[i] == s[i]);
        lemma_assoc_absent(s.drop_last(), k);
        assert(s[s.len() - 1].0@ != k);
    }
}

pub(crate) proof fn lemma_assoc_push<V: View>(s: Seq<(UniqueName, V)>, p: (UniqueName, V))
    ensures
        assoc_map(s.push(p)) == assoc_map(s).insert(p.0@, p.1@),
{
    assert(s.push(p).drop_last() =~= s);
    assert(s.push(p).last() == p);
}

pub(crate) proof fn lemma_keys_unique_remove<V>(s: Seq<(UniqueName, V)>, i: int)
    requires
        keys_unique(s),
        0 <= i < s.len(),
    ensures
        keys_unique(s.remove(i)),
        forall|j: int| 0 <= j < s.remove(i).len() ==> s.remove(i)[j] == if j < i {
            s[j]
        } else {
            s[j + 1]
        },
{
    let t = s.remove(i);
    assert forall|m: int, j: int| 0 <= m < j < t.len() implies t[m].0@ != t[j].0@ by {
        let sm = if m < i {
            m
        } else {
            m + 1
        };
        let sj = if j < i {
            j
        } else {
            j + 1
        };
        assert(t[m] == s[sm] && t[j] == s[sj]);
    }
}

pub(crate) proof fn lemma_assoc_remove<V: View>(s: Seq<(UniqueName, V)>, i: int)
    requires
        keys_unique(s),
        0 <= i < s.len(),
    ensures
        assoc_map(s.remove(i)) == assoc_map(s).remove(s[i].0@),
    decreases s.len(),
{
    lemma_keys_unique_remove::<V>(s, i);
    let t = s.remove(i);
    let k = s[i].0@;
    if i == s.len() - 1 {
        assert(t =~= s.drop_last());
        assert(forall|j: int| 0 <= j < s.drop_last().len() ==> s.drop_last()[j] == s[j]);
        lemma_assoc_absent(s.drop_last(), k);
        assert(assoc_map(s.drop_last()).insert(k, s[i].1@).remove(k) =~= assoc_map(
            s.drop_last(),
        ));
    } else {
        assert(keys_unique(s.drop_last())) by {
            assert(forall|m: int, j: int|
                0 <= m < j < s.drop_last().len() ==> s.drop_last()[m] == s[m] && s.drop_last()[j]
                    == s[j]);
        }
        lemma_assoc_remove(s.drop_last(), i);
        assert(t.drop_last() =~= s.drop_last().remove(i));
        assert(t.last() == s.last());
        assert(s.drop_last()[i] == s[i]);
        assert(s.last().0@ != k);
        assert(assoc_map(t) == assoc_map(s.drop_last()).remove(k).insert(
            s.last().0@,
            s.last().1@,
        ));
        assert(assoc_map(s.drop_last()).remove(k).insert(s.last().0@, s.last().1@) =~= assoc_map(
            s.drop_last(),
        ).insert(s.last().0@, s.last().1@).remove(k));
    }
}

/// Finds the position of `key` in the pair sequence, if any.
pub(crate) fn find_key<V: View>(entries: &Vec<(UniqueName, V)>, key: &UniqueName) -> (r: Option<usize>)
    ensures
        match r {
            Some(i) => 0 <= i < entries@.len() && entries@[i as int].0@ == key@,
            None => forall|i: int| 0 <= i < entries@.len() ==> entries@[i].0@ != key@,
        },
{
    let n = entries.len();
    let mut i: usize = 0;
    while i < n
        invariant
            n == entries@.len(),
            i <= n,
            forall|j: int| 0 <= j < i ==> entries@[j].0@ != key@,
        decreases n - i,
    {
        if entries[i].0 == *key {
            return Some(i);
        }
        i += 1;
    }
    None
}

/// Inserts `value` under `key`, replacing and handing back any earlier value
/// stored there.
pub(crate) fn assoc_insert<V: View>(entries: &mut Vec<(UniqueName, V)>, key: UniqueName, value: V) -> (r:
    Option<V>)
    requires
        keys_unique(old(entries)@),
    ensures
        keys_unique(final(entries)@),
        assoc_map(final(entries)@) == assoc_map(old(entries)@).insert(key@, value@),
        r is Some <==> assoc_map(old(entries)@).contains_key(key@),
        r matches Some(v) ==> v@ == assoc_map(old(entries)@)[key@],
        forall|j: int|
            0 <= j < final(entries)@.len() ==> ((#[trigger] final(entries)@[j]).0@ == key@
                && final(entries)@[j].1 == value) || exists|l: int|
                0 <= l < old(entries)@.len() && final(entries)@[j] == old(entries)@[l],
{
    let ghost s0 = entries@;
    let found = find_key(entries, &key);
    match found {
        Some(i) => {
            proof {
                lemma_assoc_get(s0, i as int);
                lemma_assoc_remove(s0, i as int);
                lemma_keys_unique_remove::<V>(s0, i as int);
            }
            let pair = entries.remove(i);
            let ghost s1 = entries@;
            proof {
                lemma_assoc_push(s1, (key, value));
                assert(forall|j: int| 0 <= j < s1.len() ==> s1[j].0@ != key@);
                assert(keys_unique(s1.push((key, value))));
                assert(assoc_map(s0).remove(key@).insert(key@, value@) =~= assoc_map(s0).insert(
                    key@,
                    value@,
                ));
            }
            entries.push((key, value));
            proof {
                let fin = entries@;
                assert forall|j: int| 0 <= j < fin.len() implies ((#[trigger] fin[j]).0@ == key@
                    && fin[j].1 == value) || exists|l: int|
                    0 <= l < s0.len() && fin[j] == s0[l] by {
                    if j < fin.len() - 1 {
                        assert(fin[j] == s1[j]);
                        if j < i {
                            assert(fin[j] == s0[j]);
                        } else {
                            assert(fin[j] == s0[j + 1]);
                        }
                    }
                }
            }
            Some(pair.1)
        },
        None => {
            proof {
                lemma_assoc_absent(s0, key@);
                lemma_assoc_push(s0, (key, value));
                assert(keys_unique(s0.push((key, value))));
            }
            entries.push((key, value));
            proof {
                let fin = entries@;
                assert forall|j: int| 0 <= j < fin.len() implies ((#[trigger] fin[j]).0@ == key@
                    && fin[j].1 == value) || exists|l: int|
                    0 <= l < s0.len() && fin[j] == s0[l] by {
                    if j < fin.len() - 1 {
                        assert(fin[j] == s0[j]);
                    }
                }
            }
            None
        },
    }
}

/// Removes the entry under `key`, if any.
pub(crate) fn assoc_erase<V: View>(entries: &mut Vec<(UniqueName, V)>, key: &UniqueName)
    requires
        keys_unique(old(entries)@),
    ensures
        keys_unique(final(entries)@),
        assoc_map(final(entries)@) == assoc_map(old(entries)@).remove(key@),
        forall|j: int| 0 <= j < final(entries)@.len() ==> exists|l: int|
            0 <= l < old(entries)@.len() && #[trigger] final(entries)@[j] == old(entries)@[l],
{
    let ghost s0 = entries@;
    let found = find_key(entries, key);
    match found {
        Some(i) => {
            proof {
                lemma_assoc_remove(s0, i as int);
                lemma_keys_unique_remove::<V>(s0, i as int);
            }
            entries.remove(i);
            proof {
                let fin = entries@;
                assert forall|j: int| 0 <= j < fin.len() implies exists|l: int|
                    0 <= l < s0.len() && #[trigger] fin[j] == s0[l] by {
                    if j < i {
                        assert(fin[j] == s0[j]);
                    } else {
                        assert(fin[j] == s0[j + 1]);
                    }
                }
            }
        },
        None => {
            proof {
                lemma_assoc_absent(s0, key@);
                assert(assoc_map(s0).remove(key@) =~= assoc_map(s0));
            }
        },
    }
}

/// Looks the value under `key` up.
pub(crate) fn assoc_find<'a, V: View>(entries: &'a Vec<(UniqueName, V)>, key: &UniqueName) -> (r: Option<
    &'a V>)
    requires
        keys_unique(entries@),
    ensures
        r is Some <==> assoc_map(entries@).contains_key(key@),
        r matches Some(v) ==> v@ == assoc_map(entries@)[key@],
{
    let found = find_key(entries, key);
    match found {
        Some(i) => {
            proof {
                lemma_assoc_get(entries@, i as int);
            }
            Some(&entries[i].1)
        },
        None => {
            proof {
                lemma_assoc_absent(entries@, key@);
            }
            None
        },
    }
}

/// Strict order on values of one tag; values of different tags are unordered.
///
/// Booleans order false before true, strings lexicographically, numbers by
/// their total numeric order.
pub open spec fn value_lt(a: ValueV, b: ValueV) -> bool {
    match (a, b) {
        (ValueV::Bool(x), ValueV::Bool(y)) => !x && y,
        (ValueV::Str(x), ValueV::Str(y)) => seq_char_lt(x, y),
        (ValueV::Num(x), ValueV::Num(y)) => x < y,
        _ => false,
    }
}

/// True iff every fact of `o` is present in `w` with an equal value: the
/// asymmetric subset test of world against world.
pub open spec fn world_validate(w: Map<Seq<char>, ValueV>, o: Map<Seq<char>, ValueV>) -> bool {
    forall|k: Seq<char>| #[trigger] o.contains_key(k) ==> w.contains_key(k) && w[k] == o[k]
}

/// A collection of known facts: a mapping from names to typed values, with
/// unique keys and last-write-wins updates.
#[derive(Debug)]
pub struct WorldState {
    entries: Vec<(UniqueName, Variant)>,
}

impl View for WorldState {
    type V = Map<Seq<char>, ValueV>;

    closed spec fn view(&self) -> Map<Seq<char>, ValueV> {
        assoc_map(self.entries@)
    }
}

impl WorldState {
    /// The representation holds each key at most once.
    pub closed spec fn wf(&self) -> bool {
        keys_unique(self.entries@)
    }

    /// An empty world: no facts are known.
    pub fn new() -> (r: WorldState)
        ensures
            r@ == Map::<Seq<char>, ValueV>::empty(),
            r.wf(),
    {
        WorldState { entries: Vec::new() }
    }

    /// Stores `value` under `key`, handing back the value it replaces, if
    /// any.
    pub fn insert(&mut self, key: &str, value: Variant) -> (r: Option<Variant>)
        requires
            old(self).wf(),
        ensures
            final(self).wf(),
            final(self)@ == old(self)@.insert(key@, value@),
            r is Some <==> old(self)@.contains_key(key@),
            r matches Some(v) ==> v@ == old(self)@[key@],
    {
        assoc_insert(&mut self.entries, UniqueName::new(key), value)
    }

    /// Stores `value` under `key` and hands the world back for chaining.
    pub fn add(&mut self, key: &str, value: Variant) -> (r: &mut WorldState)
        requires
            old(self).wf(),
        ensures
            (*r).wf(),
            (*r)@ == old(self)@.insert(key@, value@),
            *final(self) == *final(r),
    {
        self.insert(key, value);
        self
    }

    /// Finishes a chain of `add` calls with an independent copy.
    pub fn build(&mut self) -> (r: WorldState)
        ensures
            r@ == old(self)@,
            r.wf() == old(self).wf(),
            *final(self) == *old(self),
    {
        self.clone()
    }

    /// Forgets the fact under `key`, if any.
    pub fn erase(&mut self, key: &str)
        requires
            old(self).wf(),
        ensures
            final(self).wf(),
            final(self)@ == old(self)@.remove(key@),
    {
        assoc_erase(&mut self.entries, &UniqueName::new(key));
    }

    /// Forgets every fact.
    pub fn clear(&mut self)
        ensures
            final(self).wf(),
            final(self)@ == Map::<Seq<char>, ValueV>::empty(),
    {
        self.entries.clear();
    }

    /// The value stored under `key`, if any.
    pub fn get(&self, key: &str) -> (r: Option<Variant>)
        requires
            self.wf(),
        ensures
            r is Some <==> self@.contains_key(key@),
            r matches Some(v) ==> v@ == self@[key@],
    {
        match assoc_find(&self.entries, &UniqueName::new(key)) {
            Some(v) => Some(v.clone()),
            None => None,
        }
    }

    /// True iff every fact of `other` is present in this world with an equal
    /// value. The test is asymmetric: it does not mind facts that only this
    /// world knows.
    pub fn validate(&self, other: &WorldState) -> (r: bool)
        requires
            self.wf(),
            other.wf(),
        ensures
            r == world_validate(self@, other@),
    {
        proof {
            lemma_assoc_dom(other.entries@);
        }
        let n = other.entries.len();
        let mut i: usize = 0;
        while i < n
            invariant
                n == other.entries@.len(),
                i <= n,
                keys_unique(self.entries@),
                keys_unique(other.entries@),
                forall|j: int|
                    0 <= j < i ==> self@.contains_key(#[trigger] other.entries@[j].0@)
                        && self@[other.entries@[j].0@] == other.entries@[j].1@,
            decreases n - i,
        {
            proof {
                lemma_assoc_get(other.entries@, i as int);
            }
            let pair = &other.entries[i];
            match assoc_find(&self.entries, &pair.0) {
                Some(v) => {
                    if !(*v == pair.1) {
                        return false;
                    }
                },
                None => {
                    return false;
                },
            }
            i += 1;
        }
        proof {
            assert forall|k: Seq<char>| #[trigger] other@.contains_key(k) implies self@.contains_key(
                k,
            ) && self@[k] == other@[k] by {
                let j = choose|j: int| 0 <= j < other.entries@.len() && other.entries@[j].0@ == k;
                lemma_assoc_get(other.entries@, j);
            }
        }
        true
    }

    /// Merges every fact of `other` into this world; on a key collision the
    /// fact of `other` wins.
    pub fn append(&mut self, other: &WorldState)
        requires
            old(self).wf(),
            other.wf(),
        ensures
            final(self).wf(),
            final(self)@ == old(self)@.union_prefer_right(other@),
    {
        let n = other.entries.len();
        let mut i: usize = 0;
        while i < n
            invariant
                n == other.entries@.len(),
                i <= n,
                keys_unique(other.entries@),
                self.wf(),
                self@ == old(self)@.union_prefer_right(assoc_map(other.entries@.take(i as int))),
            decreases n - i,
        {
            let ghost pre = self@;
            let pair = &other.entries[i];
            let key = pair.0.clone();
            let value = pair.1.clone();
            self.insert(key.as_str(), value);
            proof {
                let t = other.entries@.take(i as int);
                assert(other.entries@.take(i + 1 as int) =~= t.push(other.entries@[i as int]));
                lemma_assoc_push(t, other.entries@[i as int]);
                assert(old(self)@.union_prefer_right(assoc_map(t).insert(key@, value@))
                    =~= old(self)@.union_prefer_right(assoc_map(t)).insert(key@, value@));
            }
            i += 1;
        }
        proof {
            assert(other.entries@.take(n as int) =~= other.entries@);
        }
    }

    /// A new world holding the facts of this one merged with those of
    /// `other`; on a key collision the fact of `other` wins.
    pub fn concat(&self, other: &WorldState) -> (r: WorldState)
        requires
            self.wf(),
            other.wf(),
        ensures
            r.wf(),
            r@ == self@.union_prefer_right(other@),
    {
        let mut n_world = self.clone();
        n_world.append(other);
        n_world
    }

    /// The requirements that demand exactly the facts of this world: one
    /// equality predicate per entry.
    pub fn to_requirements(&self) -> (r: Requirements)
        requires
            self.wf(),
        ensures
            r.wf(),
            r@.dom() == self@.dom(),
            forall|k: Seq<char>| #[trigger] self@.contains_key(k) ==> r@[k] == PredV::Equals(
                self@[k],
            ),
    {
        proof {
            lemma_assoc_dom(self.entries@);
        }
        let mut req = Requirements::new();
        let n = self.entries.len();
        let mut i: usize = 0;
        while i < n
            invariant
                n == self.entries@.len(),
                i <= n,
                keys_unique(self.entries@),
                req.wf(),
                req@ == Map::<Seq<char>, PredV>::empty().union_prefer_right(
                    assoc_pred_map(self.entries@.take(i as int)),
                ),
            decreases n - i,
        {
            let pair = &self.entries[i];
            let key = pair.0.clone();
            let value = pair.1.clone();
            req.req(key.as_str(), Predicate::Equals(value));
            proof {
                let t = self.entries@.take(i as int);
                assert(self.entries@.take(i + 1 as int) =~= t.push(self.entries@[i as int]));
                lemma_assoc_pred_push(t, self.entries@[i as int]);
                assert(Map::<Seq<char>, PredV>::empty().union_prefer_right(
                    assoc_pred_map(t).insert(key@, PredV::Equals(value@)),
                ) =~= Map::<Seq<char>, PredV>::empty().union_prefer_right(
                    assoc_pred_map(t),
                ).insert(key@, PredV::Equals(value@)));
            }
            i += 1;
        }
        proof {
            assert(self.entries@.take(n as int) =~= self.entries@);
            assert forall|k: Seq<char>| #[trigger] self@.contains_key(k) implies req@.contains_key(
                k,
            ) && req@[k] == PredV::Equals(self@[k]) by {
                let j = choose|j: int| 0 <= j < self.entries@.len() && self.entries@[j].0@ == k;
                lemma_assoc_get(self.entries@, j);
                lemma_assoc_pred_get(self.entries@, j);
            }
            lemma_assoc_pred_dom(self.entries@);
            assert forall|k: Seq<char>| #[trigger] req@.contains_key(k) implies self@.contains_key(
                k,
            ) by {
                let j = choose|j: int| 0 <= j < self.entries@.len() && self.entries@[j].0@ == k;
                lemma_assoc_get(self.entries@, j);
            }
            assert(req@.dom() =~= self@.dom());
        }
        req
    }
}

impl Default for WorldState {
    fn default() -> (r: Self)
        ensures
            r@ == Map::<Seq<char>, ValueV>::empty(),
            r.wf(),
    {
        WorldState::new()
    }
}

impl Clone for WorldState {
    fn clone(&self) -> (r: Self)
        ensures
            r@ == self@,
            r.wf() == self.wf(),
    {
        let n = self.entries.len();
        let mut v: Vec<(UniqueName, Variant)> = Vec::new();
        let mut i: usize = 0;
        while i < n
            invariant
                n == self.entries@.len(),
                i <= n,
                v@.len() == i,
                forall|j: int| 0 <= j < i ==> v@[j] == self.entries@[j],
            decreases n - i,
        {
            let pair = &self.entries[i];
            v.push((pair.0.clone(), pair.1.clone()));
            i += 1;
        }
        proof {
            assert(v@ =~= self.entries@);
        }
        WorldState { entries: v }
    }
}

/// Lexicographic string comparison, strictly less.
fn str_lt(a: &str, b: &str) -> (r: bool)
    ensures
        r == seq_char_lt(a@, b@),
{
    let alen = a.unicode_len();
    let blen = b.unicode_len();
    let mut i: usize = 0;
    proof {
        assert(a@.skip(0) =~= a@);
        assert(b@.skip(0) =~= b@);
    }
    while i < blen
        invariant
            alen == a@.len(),
            blen == b@.len(),
            i <= alen,
            i <= blen,
            seq_char_lt(a@, b@) == seq_char_lt(a@.skip(i as int), b@.skip(i as int)),
        decreases blen - i,
    {
        if i >= alen {
            return true;
        }
        let ca = a.get_char(i);
        let cb = b.get_char(i);
        if ca as u32 != cb as u32 {
            proof {
                let sa = a@.skip(i as int);
                let sb = b@.skip(i as int);
                assert(sa[0] == a@[i as int] && sb[0] == b@[i as int]);
            }
            return (ca as u32) < (cb as u32);
        }
        proof {
            let sa = a@.skip(i as int);
            let sb = b@.skip(i as int);
            assert(sa[0] == a@[i as int] && sb[0] == b@[i as int]);
            assert(sa.drop_first() =~= a@.skip(i + 1));
            assert(sb.drop_first() =~= b@.skip(i + 1));
        }
        i += 1;
    }
    proof {
        assert(b@.skip(i as int).len() == 0);
    }
    false
}

/// Strictly-less comparison of two values, by `value_lt`.
fn variant_lt(a: &Variant, b: &Variant) -> (r: bool)
    ensures
        r == value_lt(a@, b@),
{
    match (a, b) {
        (Variant::Bool(x), Variant::Bool(y)) => !*x && *y,
        (Variant::String(x), Variant::String(y)) => str_lt(x.as_str(), y.as_str()),
        (Variant::Number(x), Variant::Number(y)) => x.units < y.units,
        _ => false,
    }
}

/// The mathematical value of a `Predicate`.
pub enum PredV {
    Has,
    Equals(ValueV),
    Ordered(Ordering, ValueV),
}

/// A condition on one fact: mere presence, equality with a value, or an
/// order relation against a value.
#[derive(Debug, Default)]
pub enum Predicate {
    #[default]
    HasEntry,
    Equals(Variant),
    Order(Ordering, Variant),
}

impl View for Predicate {
    type V = PredV;

    open spec fn view(&self) -> PredV {
        match self {
            Predicate::HasEntry => PredV::Has,
            Predicate::Equals(v) => PredV::Equals(v@),
            Predicate::Order(o, v) => PredV::Ordered(*o, v@),
        }
    }
}

impl Clone for Predicate {
    fn clone(&self) -> (r: Self)
        ensures
            r == *self,
    {
        match self {
            Predicate::HasEntry => Predicate::HasEntry,
            Predicate::Equals(v) => Predicate::Equals(v.clone()),
            Predicate::Order(o, v) => Predicate::Order(*o, v.clone()),
        }
    }
}

/// Whether a value meets a predicate. Presence is met by any value; equality
/// and order never hold across tags.
pub open spec fn pred_sat(p: PredV, v: ValueV) -> bool {
    match p {
        PredV::Has => true,
        PredV::Equals(w) => v == w,
        PredV::Ordered(o, w) => match o {
            Ordering::Less => value_lt(v, w),
            Ordering::Equal => v == w,
            Ordering::Greater => value_lt(w, v),
        },
    }
}

impl Predicate {
    /// Whether `variant` meets this predicate.
    pub fn validate(&self, variant: Variant) -> (r: bool)
        ensures
            r == pred_sat(self@, variant@),
    {
        match self {
            Predicate::HasEntry => true,
            Predicate::Equals(var) => variant == *var,
            Predicate::Order(ord, var) => match ord {
                Ordering::Less => variant_lt(&variant, var),
                Ordering::Equal => variant == *var,
                Ordering::Greater => variant_lt(var, &variant),
            },
        }
    }
}

/// A presence predicate is met by any value at all: only the key matters.
pub proof fn lemma_has_entry_ignores_value(v: ValueV)
    ensures
        pred_sat(PredV::Has, v),
{
}

/// The options a host may configure the planner with: an optional duration
/// cap per planning cycle, an optional search depth limit, and whether the
/// lowest-priority-first ordering of agents is disabled.
#[derive(Clone, Debug)]
pub struct HtnSettings {
    pub frame_processing_limit: Option<core::time::Duration>,
    pub node_branch_limit: Option<u32>,
    pub disable_priority_sort: Option<bool>,
}

impl Default for HtnSettings {
    fn default() -> (r: Self)
        ensures
            r.frame_processing_limit is None,
            r.node_branch_limit is None,
            r.disable_priority_sort is None,
    {
        HtnSettings {
            frame_processing_limit: None,
            node_branch_limit: None,
            disable_priority_sort: None,
        }
    }
}

/// The fact subset of `w` that validates against a wider world `o` does: a
/// strict subset validates against its superset, never the other way round.
pub proof fn lemma_validate_asymmetric(
    w: Map<Seq<char>, ValueV>,
    o: Map<Seq<char>, ValueV>,
    extra: Seq<char>,
)
    requires
        forall|k: Seq<char>| #[trigger] o.contains_key(k) ==> w.contains_key(k) && w[k] == o[k],
        w.contains_key(extra),
        !o.contains_key(extra),
    ensures
        world_validate(w, o),
        !world_validate(o, w),
{
}

/// The equality requirements a fact sequence stands for: one `Equals`
/// predicate per pair, later pairs winning on a collision.
pub open spec fn assoc_pred_map(s: Seq<(UniqueName, Variant)>) -> Map<Seq<char>, PredV>
    decreases s.len(),
{
    if s.len() == 0 {
        Map::empty()
    } else {
        assoc_pred_map(s.drop_last()).insert(s.last().0@, PredV::Equals(s.last().1@))
    }
}

proof fn lemma_assoc_pred_push(s: Seq<(UniqueName, Variant)>, p: (UniqueName, Variant))
    ensures
        assoc_pred_map(s.push(p)) == assoc_pred_map(s).insert(p.0@, PredV::Equals(p.1@)),
{
    assert(s.push(p).drop_last() =~= s);
    assert(s.push(p).last() == p);
}

proof fn lemma_assoc_pred_get(s: Seq<(UniqueName, Variant)>, i: int)
    requires
        keys_unique(s),
        0 <= i < s.len(),
    ensures
        assoc_pred_map(s).contains_key(s[i].0@),
        assoc_pred_map(s)[s[i].0@] == PredV::Equals(s[i].1@),
    decreases s.len(),
{
    if i == s.len() - 1 {
    } else {
        assert(keys_unique(s.drop_last())) by {
            assert(forall|m: int, j: int|
                0 <= m < j < s.drop_last().len() ==> s.drop_last()[m] == s[m] && s.drop_last()[j]
                    == s[j]);
        }
        assert(s.drop_last()[i] == s[i]);
        lemma_assoc_pred_get(s.drop_last(), i);
        assert(s[s.len() - 1].0@ != s[i].0@);
    }
}

proof fn lemma_assoc_pred_dom(s: Seq<(UniqueName, Variant)>)
    ensures
        forall|k: Seq<char>| #[trigger] assoc_pred_map(s).contains_key(k) ==> exists|i: int|
            0 <= i < s.len() && s[i].0@ == k,
    decreases s.len(),
{
    if s.len() > 0 {
        lemma_assoc_pred_dom(s.drop_last());
        assert forall|k: Seq<char>| #[trigger] assoc_pred_map(s).contains_key(k) implies exists|
            i: int,
        | 0 <= i < s.len() && s[i].0@ == k by {
            if k != s.last().0@ {
                assert(assoc_pred_map(s.drop_last()).contains_key(k));
                let i = choose|i: int|
                    0 <= i < s.drop_last().len() && s.drop_last()[i].0@ == k;
                assert(s[i] == s.drop_last()[i]);
            } else {
                assert(s[s.len() - 1].0@ == k);
            }
        }
    }
}

/// True iff every predicate of `req` is met by the corresponding fact of
/// `w`; a missing fact fails the predicate on its key.
pub open spec fn req_validate(req: Map<Seq<char>, PredV>, w: Map<Seq<char>, ValueV>) -> bool {
    forall|k: Seq<char>| #[trigger] req.contains_key(k) ==> w.contains_key(k) && pred_sat(
        req[k],
        w[k],
    )
}

/// The facts of `w` that are left once every fact meeting a predicate of
/// `req` has been absorbed.
pub open spec fn consume_map(
    req: Map<Seq<char>, PredV>,
    w: Map<Seq<char>, ValueV>,
) -> Map<Seq<char>, ValueV> {
    Map::new(
        |k: Seq<char>| w.contains_key(k) && !(req.contains_key(k) && pred_sat(req[k], w[k])),
        |k: Seq<char>| w[k],
    )
}

/// The predicates of `req` that `w` does not yet meet.
pub open spec fn unmet_map(
    req: Map<Seq<char>, PredV>,
    w: Map<Seq<char>, ValueV>,
) -> Map<Seq<char>, PredV> {
    Map::new(
        |k: Seq<char>| req.contains_key(k) && !(w.contains_key(k) && pred_sat(req[k], w[k])),
        |k: Seq<char>| req[k],
    )
}

/// A set of conditions on facts: a mapping from names to predicates, with
/// unique keys.
#[derive(Debug)]
pub struct Requirements {
    entries: Vec<(UniqueName, Predicate)>,
}

impl View for Requirements {
    type V = Map<Seq<char>, PredV>;

    closed spec fn view(&self) -> Map<Seq<char>, PredV> {
        assoc_map(self.entries@)
    }
}

impl Requirements {
    /// The representation holds each key at most once.
    pub closed spec fn wf(&self) -> bool {
        keys_unique(self.entries@)
    }

    /// An empty requirement set; every world meets it vacuously.
    pub fn new() -> (r: Requirements)
        ensures
            r@ == Map::<Seq<char>, PredV>::empty(),
            r.wf(),
    {
        Requirements { entries: Vec::new() }
    }

    /// True iff `world` meets every predicate of this set. An empty set is
    /// always met; a predicate whose key `world` lacks is never met.
    pub fn validate(&self, world: &WorldState) -> (r: bool)
        requires
            self.wf(),
            world.wf(),
        ensures
            r == req_validate(self@, world@),
    {
        proof {
            lemma_assoc_dom(self.entries@);
        }
        let n = self.entries.len();
        let mut i: usize = 0;
        while i < n
            invariant
                n == self.entries@.len(),
                i <= n,
                keys_unique(self.entries@),
                world.wf(),
                forall|j: int|
                    0 <= j < i ==> world@.contains_key(#[trigger] self.entries@[j].0@) && pred_sat(
                        self.entries@[j].1@,
                        world@[self.entries@[j].0@],
                    ),
            decreases n - i,
        {
            proof {
                lemma_assoc_get(self.entries@, i as int);
            }
            let pair = &self.entries[i];
            match world.get(pair.0.as_str()) {
                Some(var) => {
                    if !pair.1.validate(var) {
                        return false;
                    }
                },
                None => {
                    return false;
                },
            }
            i += 1;
        }
        proof {
            assert forall|k: Seq<char>| #[trigger] self@.contains_key(k) implies world@.contains_key(
                k,
            ) && pred_sat(self@[k], world@[k]) by {
                let j = choose|j: int| 0 <= j < self.entries@.len() && self.entries@[j].0@ == k;
                lemma_assoc_get(self.entries@, j);
            }
        }
        true
    }

    /// A copy of `world` with every fact that already meets its predicate
    /// removed: a prerequisite absorbed those facts.
    pub fn consume(&self, world: &WorldState) -> (r: WorldState)
        requires
            self.wf(),
            world.wf(),
        ensures
            r.wf(),
            r@ == consume_map(self@, world@),
    {
        let mut reduced_world = world.clone();
        let n = self.entries.len();
        let mut i: usize = 0;
        proof {
            assert(reduced_world@ =~= consume_map(
                assoc_map(self.entries@.take(0)),
                world@,
            ));
        }
        while i < n
            invariant
                n == self.entries@.len(),
                i <= n,
                keys_unique(self.entries@),
                world.wf(),
                reduced_world.wf(),
                reduced_world@ == consume_map(assoc_map(self.entries@.take(i as int)), world@),
            decreases n - i,
        {
            let ghost t = self.entries@.take(i as int);
            proof {
                assert(forall|j: int| 0 <= j < t.len() ==> t[j] == self.entries@[j]);
                lemma_assoc_absent(t, self.entries@[i as int].0@);
                assert(self.entries@.take(i + 1 as int) =~= t.push(self.entries@[i as int]));
                lemma_assoc_push(t, self.entries@[i as int]);
            }
            let ghost m = assoc_map(t);
            let ghost m1 = assoc_map(self.entries@.take(i + 1 as int));
            let pair = &self.entries[i];
            match world.get(pair.0.as_str()) {
                Some(var) => {
                    if pair.1.validate(var) {
                        reduced_world.erase(pair.0.as_str());
                        proof {
                            assert(consume_map(m1, world@) =~= consume_map(m, world@).remove(
                                pair.0@,
                            ));
                        }
                    } else {
                        proof {
                            assert(consume_map(m1, world@) =~= consume_map(m, world@));
                        }
                    }
                },
                None => {
                    proof {
                        assert(consume_map(m1, world@) =~= consume_map(m, world@));
                    }
                },
            }
            i += 1;
        }
        proof {
            assert(self.entries@.take(n as int) =~= self.entries@);
        }
        reduced_world
    }

    /// The subset of this set that `world` does not yet meet.
    pub fn unmet_requirements(&self, world: &WorldState) -> (r: Requirements)
        requires
            self.wf(),
            world.wf(),
        ensures
            r.wf(),
            r@ == unmet_map(self@, world@),
    {
        let mut kept: Vec<(UniqueName, Predicate)> = Vec::new();
        let n = self.entries.len();
        let mut i: usize = 0;
        proof {
            assert(assoc_map(kept@) =~= unmet_map(assoc_map(self.entries@.take(0)), world@));
        }
        while i < n
            invariant
                n == self.entries@.len(),
                i <= n,
                keys_unique(self.entries@),
                world.wf(),
                keys_unique(kept@),
                assoc_map(kept@) == unmet_map(assoc_map(self.entries@.take(i as int)), world@),
                forall|j: int| 0 <= j < kept@.len() ==> exists|l: int|
                    0 <= l < i && #[trigger] kept@[j].0@ == self.entries@[l].0@,
            decreases n - i,
        {
            let ghost t = self.entries@.take(i as int);
            let ghost kept0 = kept@;
            proof {
                assert(forall|j: int| 0 <= j < t.len() ==> t[j] == self.entries@[j]);
                lemma_assoc_absent(t, self.entries@[i as int].0@);
                assert(self.entries@.take(i + 1 as int) =~= t.push(self.entries@[i as int]));
                lemma_assoc_push(t, self.entries@[i as int]);
            }
            let ghost m = assoc_map(t);
            let ghost m1 = assoc_map(self.entries@.take(i + 1 as int));
            let pair = &self.entries[i];
            let mut satisfied = false;
            match world.get(pair.0.as_str()) {
                Some(var) => {
                    if pair.1.validate(var) {
                        satisfied = true;
                    }
                },
                None => {},
            }
            if !satisfied {
                proof {
                    assert forall|j: int| 0 <= j < kept0.len() implies kept0[j].0@
                        != self.entries@[i as int].0@ by {
                        let l = choose|l: int|
                            0 <= l < i && kept0[j].0@ == self.entries@[l].0@;
                    }
                    lemma_assoc_push(kept0, self.entries@[i as int]);
                    assert(keys_unique(kept0.push(self.entries@[i as int])));
                    assert(unmet_map(m1, world@) =~= unmet_map(m, world@).insert(
                        self.entries@[i as int].0@,
                        self.entries@[i as int].1@,
                    ));
                }
                kept.push((pair.0.clone(), pair.1.clone()));
                proof {
                    assert(kept@ =~= kept0.push(self.entries@[i as int]));
                }
            } else {
                proof {
                    assert(unmet_map(m1, world@) =~= unmet_map(m, world@));
                }
            }
            i += 1;
        }
        proof {
            assert(self.entries@.take(n as int) =~= self.entries@);
        }
        Requirements { entries: kept }
    }

    /// Stores `predicate` under `key` and hands the set back for chaining.
    pub fn req(&mut self, key: &str, predicate: Predicate) -> (r: &mut Requirements)
        requires
            old(self).wf(),
        ensures
            (*r).wf(),
            (*r)@ == old(self)@.insert(key@, predicate@),
            *final(self) == *final(r),
    {
        assoc_insert(&mut self.entries, UniqueName::new(key), predicate);
        self
    }

    /// Requires the fact under `key` to equal `variant`.
    pub fn req_equals(&mut self, key: &str, variant: Variant) -> (r: &mut Requirements)
        requires
            old(self).wf(),
        ensures
            (*r).wf(),
            (*r)@ == old(self)@.insert(key@, PredV::Equals(variant@)),
            *final(self) == *final(r),
    {
        self.req(key, Predicate::Equals(variant))
    }

    /// Requires the fact under `key` to be strictly greater than `variant`.
    pub fn req_greater(&mut self, key: &str, variant: Variant) -> (r: &mut Requirements)
        requires
            old(self).wf(),
        ensures
            (*r).wf(),
            (*r)@ == old(self)@.insert(key@, PredV::Ordered(Ordering::Greater, variant@)),
            *final(self) == *final(r),
    {
        self.req(key, Predicate::Order(Ordering::Greater, variant))
    }

    /// Requires the fact under `key` to be strictly less than `variant`.
    pub fn req_less(&mut self, key: &str, variant: Variant) -> (r: &mut Requirements)
        requires
            old(self).wf(),
        ensures
            (*r).wf(),
            (*r)@ == old(self)@.insert(key@, PredV::Ordered(Ordering::Less, variant@)),
            *final(self) == *final(r),
    {
        self.req(key, Predicate::Order(Ordering::Less, variant))
    }

    /// Requires a fact under `key` to be present, whatever it holds.
    pub fn req_has(&mut self, key: &str) -> (r: &mut Requirements)
        requires
            old(self).wf(),
        ensures
            (*r).wf(),
            (*r)@ == old(self)@.insert(key@, PredV::Has),
            *final(self) == *final(r),
    {
        self.req(key, Predicate::HasEntry)
    }

    /// Merges every predicate of `req` into this set; on a key collision the
    /// predicate of `req` wins.
    pub fn append(&mut self, req: &Requirements)
        requires
            old(self).wf(),
            req.wf(),
        ensures
            final(self).wf(),
            final(self)@ == old(self)@.union_prefer_right(req@),
    {
        let n = req.entries.len();
        let mut i: usize = 0;
        while i < n
            invariant
                n == req.entries@.len(),
                i <= n,
                keys_unique(req.entries@),
                self.wf(),
                self@ == old(self)@.union_prefer_right(assoc_map(req.entries@.take(i as int))),
            decreases n - i,
        {
            let pair = &req.entries[i];
            let key = pair.0.clone();
            let value = pair.1.clone();
            self.req(key.as_str(), value);
            proof {
                let t = req.entries@.take(i as int);
                assert(req.entries@.take(i + 1 as int) =~= t.push(req.entries@[i as int]));
                lemma_assoc_push(t, req.entries@[i as int]);
                assert(old(self)@.union_prefer_right(assoc_map(t).insert(key@, value@))
                    =~= old(self)@.union_prefer_right(assoc_map(t)).insert(key@, value@));
            }
            i += 1;
        }
        proof {
            assert(req.entries@.take(n as int) =~= req.entries@);
        }
    }

    /// Finishes a chain of `req` calls with an independent copy.
    pub fn build(&mut self) -> (r: Requirements)
        ensures
            r@ == old(self)@,
            r.wf() == old(self).wf(),
            *final(self) == *old(self),
    {
        self.clone()
    }
}

impl Default for Requirements {
    fn default() -> (r: Self)
        ensures
            r@ == Map::<Seq<char>, PredV>::empty(),
            r.wf(),
    {
        Requirements::new()
    }
}

impl Clone for Requirements {
    fn clone(&self) -> (r: Self)
        ensures
            r@ == self@,
            r.wf() == self.wf(),
    {
        let n = self.entries.len();
        let mut v: Vec<(UniqueName, Predicate)> = Vec::new();
        let mut i: usize = 0;
        while i < n
            invariant
                n == self.entries@.len(),
                i <= n,
                v@.len() == i,
                forall|j: int| 0 <= j < i ==> v@[j] == self.entries@[j],
            decreases n - i,
        {
            let pair = &self.entries[i];
            v.push((pair.0.clone(), pair.1.clone()));
            i += 1;
        }
        proof {
            assert(v@ =~= self.entries@);
        }
        Requirements { entries: v }
    }
}

} // verus!
