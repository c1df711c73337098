//! Names of definitions, and ordered collections of them.
use std::sync::Arc;

use vstd::prelude::*;
use vstd::utf8::{encode_utf8, encode_utf8_decode_utf8};

verus! {

// TEXT
// ================================================================================================

/// `a` comes before `b` when byte strings are ordered lexicographically.
pub open spec fn bytes_less(a: Seq<u8>, b: Seq<u8>) -> bool
    decreases a.len(),
{
    if b.len() == 0 {
        false
    } else if a.len() == 0 {
        true
    } else {
        a[0] < b[0] || (a[0] == b[0] && bytes_less(a.skip(1), b.skip(1)))
    }
}

/// `a` comes before `b` when texts are ordered by the bytes that encode them.
pub open spec fn text_less(a: Seq<char>, b: Seq<char>) -> bool {
    bytes_less(encode_utf8(a), encode_utf8(b))
}

proof fn bytes_less_irreflexive(a: Seq<u8>)
    ensures
        !bytes_less(a, a),
    decreases a.len(),
{
    if a.len() > 0 {
        bytes_less_irreflexive(a.skip(1));
    }
}

proof fn bytes_less_transitive(a: Seq<u8>, b: Seq<u8>, c: Seq<u8>)
    requires
        bytes_less(a, b),
        bytes_less(b, c),
    ensures
        bytes_less(a, c),
    decreases a.len(),
{
    if a.len() > 0 && b.len() > 0 && c.len() > 0 && a[0] == b[0] && b[0] == c[0] {
        bytes_less_transitive(a.skip(1), b.skip(1), c.skip(1));
    }
}

proof fn bytes_less_total(a: Seq<u8>, b: Seq<u8>)
    ensures
        bytes_less(a, b) || a == b || bytes_less(b, a),
    decreases a.len(),
{
    if a.len() == 0 && b.len() == 0 {
        assert(a =~= b);
    } else if a.len() > 0 && b.len() > 0 && a[0] == b[0] {
        bytes_less_total(a.skip(1), b.skip(1));
        assert(a =~= seq![a[0]] + a.skip(1));
        assert(b =~= seq![b[0]] + b.skip(1));
    }
}

/// No text comes before itself.
pub proof fn text_less_irreflexive(a: Seq<char>)
    ensures
        !text_less(a, a),
{
    bytes_less_irreflexive(encode_utf8(a));
}

/// A text that comes before one that comes before a third comes before the third.
pub proof fn text_less_transitive(a: Seq<char>, b: Seq<char>, c: Seq<char>)
    requires
        text_less(a, b),
        text_less(b, c),
    ensures
        text_less(a, c),
{
    bytes_less_transitive(encode_utf8(a), encode_utf8(b), encode_utf8(c));
}

/// Of two different texts one comes before the other.
pub proof fn text_less_total(a: Seq<char>, b: Seq<char>)
    ensures
        text_less(a, b) || a == b || text_less(b, a),
{
    bytes_less_total(encode_utf8(a), encode_utf8(b));
    encode_utf8_decode_utf8(a);
    encode_utf8_decode_utf8(b);
}

/// How two texts stand to each other in the order of their bytes.
#[derive(Clone, Copy, PartialEq, Eq, Structural)]
pub enum Place {
    Before,
    Same,
    After,
}

/// Where `a` stands relative to `b`.
pub fn place(a: &str, b: &str) -> (result: Place)
    ensures
        result is Before <==> text_less(a@, b@),
        result is Same <==> a@ == b@,
        result is After <==> text_less(b@, a@),
{
    let x = a.as_bytes();
    let y = b.as_bytes();
    proof {
        text_less_irreflexive(a@);
        encode_utf8_decode_utf8(a@);
        encode_utf8_decode_utf8(b@);
        if text_less(a@, b@) && text_less(b@, a@) {
            text_less_transitive(a@, b@, a@);
        }
        assert(x@.skip(0) =~= x@);
        assert(y@.skip(0) =~= y@);
    }
    let mut i: usize = 0;
    while i < x.len() && i < y.len() && x[i] == y[i]
        invariant
            i <= x@.len(),
            i <= y@.len(),
            x@ == encode_utf8(a@),
            y@ == encode_utf8(b@),
            x@.take(i as int) == y@.take(i as int),
            bytes_less(x@, y@) == bytes_less(x@.skip(i as int), y@.skip(i as int)),
            bytes_less(y@, x@) == bytes_less(y@.skip(i as int), x@.skip(i as int)),
        decreases x@.len() - i,
    {
        proof {
            assert(x@.skip(i as int).skip(1) =~= x@.skip(i + 1));
            assert(y@.skip(i as int).skip(1) =~= y@.skip(i + 1));
            assert(x@.take(i + 1) =~= x@.take(i as int).push(x@[i as int]));
            assert(y@.take(i + 1) =~= y@.take(i as int).push(y@[i as int]));
        }
        i += 1;
    }
    proof {
        if i == x@.len() && i == y@.len() {
            assert(x@ =~= x@.take(i as int));
            assert(y@ =~= y@.take(i as int));
        }
    }
    if i == x.len() {
        if i == y.len() {
            Place::Same
        } else {
            Place::Before
        }
    } else if i == y.len() {
        Place::After
    } else if x[i] < y[i] {
        Place::Before
    } else {
        Place::After
    }
}

/// Whether two texts are the same.
pub fn same_text(a: &str, b: &str) -> (result: bool)
    ensures
        result == (a@ == b@),
{
    matches!(place(a, b), Place::Same)
}

/// Another pointer to what `pointer` points at.
///
/// This is [`Arc::clone`], of which it is claimed that the new pointer points at the same value.
#[verifier::external_body]
pub(crate) fn share<T: ?Sized>(pointer: &Arc<T>) -> (shared: Arc<T>)
    ensures
        shared == *pointer,
{
    Arc::clone(pointer)
}

/// A shared text that holds what `text` holds.
///
/// This is `Arc::<str>::from`, of which it is claimed that it copies the text.
#[verifier::external_body]
pub(crate) fn shared_text(text: &str) -> (shared: Arc<str>)
    ensures
        (*shared)@ == text@,
{
    Arc::from(text)
}

// ORDERED NAMES
// ================================================================================================

/// The texts of a list of names.
pub open spec fn texts(names: Seq<Arc<str>>) -> Seq<Seq<char>> {
    names.map_values(|name: Arc<str>| (*name)@)
}

/// Each text comes before those behind it.
pub open spec fn increasing(texts: Seq<Seq<char>>) -> bool {
    forall|i: int, j: int| 0 <= i < j < texts.len() ==> text_less(#[trigger] texts[i], #[trigger] texts[j])
}

/// No text stands twice among texts in order.
pub proof fn increasing_is_distinct(texts: Seq<Seq<char>>, i: int, j: int)
    requires
        increasing(texts),
        0 <= i < texts.len(),
        0 <= j < texts.len(),
        texts[i] == texts[j],
    ensures
        i == j,
{
    text_less_irreflexive(texts[i]);
    if i < j {
        assert(text_less(texts[i], texts[j]));
    } else if j < i {
        assert(text_less(texts[j], texts[i]));
    }
}

/// Texts in order are determined by the set of them.
pub proof fn increasing_is_canonical(a: Seq<Seq<char>>, b: Seq<Seq<char>>)
    requires
        increasing(a),
        increasing(b),
        forall|t: Seq<char>| #[trigger] a.contains(t) <==> b.contains(t),
    ensures
        a == b,
    decreases a.len(),
{
    if a.len() == 0 {
        if b.len() > 0 {
            assert(b.contains(b[0]));
            assert(a.contains(b[0]));
        }
        assert(a =~= b);
    } else {
        assert(a.contains(a.last()));
        assert(b.contains(a.last()));
        let x = a.last();
        let y = b.last();
        assert(x == y) by {
            assert(b.contains(y));
            assert(a.contains(y));
            let i = choose|i: int| 0 <= i < a.len() && a[i] == y;
            let j = choose|j: int| 0 <= j < b.len() && b[j] == x;
            if i < a.len() - 1 {
                assert(text_less(a[i], a[a.len() - 1]));
                if j < b.len() - 1 {
                    assert(text_less(b[j], b[b.len() - 1]));
                    text_less_transitive(x, y, x);
                    text_less_irreflexive(x);
                }
            }
        }
        let c = a.drop_last();
        let d = b.drop_last();
        assert forall|t: Seq<char>| #[trigger] c.contains(t) <==> d.contains(t) by {
            if c.contains(t) {
                let i = choose|i: int| 0 <= i < c.len() && c[i] == t;
                assert(text_less(a[i], a[a.len() - 1]));
                text_less_irreflexive(t);
                assert(a[i] == t);
                assert(a.contains(t));
                let j = choose|j: int| 0 <= j < b.len() && b[j] == t;
                assert(d[j] == t);
            }
            if d.contains(t) {
                let i = choose|i: int| 0 <= i < d.len() && d[i] == t;
                assert(text_less(b[i], b[b.len() - 1]));
                text_less_irreflexive(t);
                assert(b[i] == t);
                assert(b.contains(t));
                assert(a.contains(t));
                let j = choose|j: int| 0 <= j < a.len() && a[j] == t;
                assert(c[j] == t);
            }
        }
        increasing_is_canonical(c, d);
        assert(a =~= c.push(x));
        assert(b =~= d.push(y));
    }
}

/// A set of names, kept in order.
#[derive(Debug, PartialEq, Eq)]
pub struct NameSet {
    names: Vec<Arc<str>>,
}

impl View for NameSet {
    type V = Seq<Seq<char>>;

    closed spec fn view(&self) -> Seq<Seq<char>> {
        texts(self.names@)
    }
}

/// Where a name stands in a set, or where it would stand.
pub enum Slot {
    At(usize),
    Before(usize),
}

impl NameSet {
    /// The names stand in order.
    pub open spec fn wf(self) -> bool {
        increasing(self@)
    }

    /// The empty set.
    pub fn new() -> (set: NameSet)
        ensures
            set.wf(),
            set@ == Seq::<Seq<char>>::empty(),
    {
        let set = NameSet { names: Vec::new() };
        assert(set@ =~= Seq::<Seq<char>>::empty());
        set
    }

    /// The number of names.
    pub fn len(&self) -> (len: usize)
        ensures
            len == self@.len(),
    {
        self.names.len()
    }

    /// The name at a place.
    pub fn name(&self, index: usize) -> (name: Arc<str>)
        requires
            index < self@.len(),
        ensures
            (*name)@ == self@[index as int],
    {
        share(&self.names[index])
    }

    /// Where `name` stands, or before which place it would.
    pub fn locate(&self, name: &str) -> (slot: Slot)
        requires
            self.wf(),
        ensures
            match slot {
                Slot::At(i) => i < self@.len() && self@[i as int] == name@,
                Slot::Before(i) => {
                    &&& i <= self@.len()
                    &&& !self@.contains(name@)
                    &&& forall|j: int| 0 <= j < i ==> text_less(#[trigger] self@[j], name@)
                    &&& forall|j: int| i <= j < self@.len() ==> text_less(name@, #[trigger] self@[j])
                },
            },
    {
        let mut low: usize = 0;
        let mut high: usize = self.names.len();
        while low < high
            invariant
                low <= high <= self@.len(),
                increasing(self@),
                self@ == texts(self.names@),
                forall|j: int| 0 <= j < low ==> text_less(#[trigger] self@[j], name@),
                forall|j: int| high <= j < self@.len() ==> text_less(name@, #[trigger] self@[j]),
            decreases high - low,
        {
            let middle: usize = low + (high - low) / 2;
            let found = place(&self.names[middle], name);
            assert((*self.names@[middle as int])@ == self@[middle as int]);
            match found {
                Place::Same => {
                    return Slot::At(middle);
                },
                Place::Before => {
                    assert forall|j: int| 0 <= j < middle + 1 implies text_less(#[trigger] self@[j], name@) by {
                        if j < middle {
                            text_less_transitive(self@[j], self@[middle as int], name@);
                        }
                    }
                    low = middle + 1;
                },
                Place::After => {
                    assert forall|j: int| middle <= j < self@.len() implies text_less(name@, #[trigger] self@[j]) by {
                        if middle < j {
                            text_less_transitive(name@, self@[middle as int], self@[j]);
                        }
                    }
                    high = middle;
                },
            }
        }
        proof {
            if self@.contains(name@) {
                let j = choose|j: int| 0 <= j < self@.len() && self@[j] == name@;
                text_less_irreflexive(name@);
                assert(j < low || low <= j);
            }
        }
        Slot::Before(low)
    }

    /// Where `name` stands.
    pub fn position(&self, name: &str) -> (found: Option<usize>)
        requires
            self.wf(),
        ensures
            match found {
                Some(i) => i < self@.len() && self@[i as int] == name@,
                None => !self@.contains(name@),
            },
    {
        match self.locate(name) {
            Slot::At(i) => Some(i),
            Slot::Before(_) => None,
        }
    }

    /// Puts `name` where it belongs, at a place that [`NameSet::locate`] found.
    pub fn insert_at(&mut self, index: usize, name: Arc<str>)
        requires
            old(self).wf(),
            index <= old(self)@.len(),
            forall|j: int| 0 <= j < index ==> text_less(#[trigger] old(self)@[j], (*name)@),
            forall|j: int| index <= j < old(self)@.len() ==> text_less((*name)@, #[trigger] old(self)@[j]),
        ensures
            final(self).wf(),
            final(self)@ == old(self)@.insert(index as int, (*name)@),
    {
        let ghost before = self.names@;
        let ghost after = before.insert(index as int, name);
        proof {
            assert(texts(after) =~= texts(before).insert(index as int, (*name)@));
            assert forall|i: int, j: int| 0 <= i < j < texts(after).len() implies text_less(
                #[trigger] texts(after)[i],
                #[trigger] texts(after)[j],
            ) by {
                let s = texts(before);
                if i < index && index < j {
                    assert(text_less(s[i], s[j - 1]));
                } else if i == index {
                    assert(text_less((*name)@, s[j - 1]));
                } else if j == index {
                    assert(text_less(s[i], (*name)@));
                } else if i > index {
                    assert(text_less(s[i - 1], s[j - 1]));
                } else {
                    assert(text_less(s[i], s[j]));
                }
            }
        }
        self.names.insert(index, name);
    }

    /// Adds `name` where it is missing. Tells whether it was.
    pub fn insert(&mut self, name: &Arc<str>) -> (fresh: bool)
        requires
            old(self).wf(),
        ensures
            final(self).wf(),
            fresh == !old(self)@.contains((**name)@),
            !fresh ==> final(self)@ == old(self)@,
            forall|t: Seq<char>| #[trigger]
                final(self)@.contains(t) <==> old(self)@.contains(t) || t == (**name)@,
    {
        let ghost before = self@;
        match self.locate(name) {
            Slot::At(i) => {
                assert(self@[i as int] == (**name)@);
                false
            },
            Slot::Before(i) => {
                self.insert_at(i, share(name));
                proof {
                    let after = self@;
                    assert(after[i as int] == (**name)@);
                    assert forall|t: Seq<char>| #[trigger] after.contains(t) <==> before.contains(t) || t == (**name)@ by {
                        if before.contains(t) {
                            let j = choose|j: int| 0 <= j < before.len() && before[j] == t;
                            if j < i {
                                assert(after[j] == t);
                            } else {
                                assert(after[j + 1] == t);
                            }
                        }
                        if after.contains(t) && t != (**name)@ {
                            let j = choose|j: int| 0 <= j < after.len() && after[j] == t;
                            if j < i {
                                assert(before[j] == t);
                            } else {
                                assert(before[j - 1] == t);
                            }
                        }
                    }
                }
                true
            },
        }
    }
}

/// The first byte that differs decides which of two byte strings comes first.
pub proof fn first_difference_decides(common: Seq<u8>, a: u8, b: u8, rest: Seq<u8>, other: Seq<u8>)
    requires
        a != b,
    ensures
        bytes_less(common + seq![a] + rest, common + seq![b] + other) <==> a < b,
    decreases common.len(),
{
    let left = common + seq![a] + rest;
    let right = common + seq![b] + other;
    if common.len() > 0 {
        first_difference_decides(common.skip(1), a, b, rest, other);
        assert(left.skip(1) =~= common.skip(1) + seq![a] + rest);
        assert(right.skip(1) =~= common.skip(1) + seq![b] + other);
    }
}

/// A byte string comes before those that go on behind it.
pub proof fn prefixes_come_first(common: Seq<u8>, rest: Seq<u8>)
    requires
        rest.len() > 0,
    ensures
        bytes_less(common, common + rest),
        !bytes_less(common + rest, common),
    decreases common.len(),
{
    if common.len() > 0 {
        prefixes_come_first(common.skip(1), rest);
        assert((common + rest).skip(1) =~= common.skip(1) + rest);
    }
}

} // verus!
