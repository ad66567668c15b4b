//! Strings in dictionary order, and sorted lists of them.
use vstd::prelude::*;

use crate::text::{chars_of, texts};

verus! {

/// `a` comes before `b`: by the first character that differs, a prefix before
/// its continuations.
pub open spec fn precedes(a: Seq<char>, b: Seq<char>) -> bool
    decreases a.len(),
{
    if b.len() == 0 {
        false
    } else if a.len() == 0 {
        true
    } else if a[0] != b[0] {
        a[0] < b[0]
    } else {
        precedes(a.drop_first(), b.drop_first())
    }
}

/// No string comes before itself.
pub proof fn law_precedes_irreflexive(a: Seq<char>)
    ensures
        !precedes(a, a),
    decreases a.len(),
{
    if a.len() > 0 {
        law_precedes_irreflexive(a.drop_first());
    }
}

/// The order is transitive.
pub proof fn law_precedes_transitive(a: Seq<char>, b: Seq<char>, c: Seq<char>)
    requires
        precedes(a, b),
        precedes(b, c),
    ensures
        precedes(a, c),
    decreases a.len(),
{
    if a.len() > 0 && b.len() > 0 && c.len() > 0 && a[0] == b[0] && b[0] == c[0] {
        law_precedes_transitive(a.drop_first(), b.drop_first(), c.drop_first());
    }
}

/// Of two different strings one comes first.
pub proof fn law_precedes_total(a: Seq<char>, b: Seq<char>)
    ensures
        precedes(a, b) || precedes(b, a) || a == b,
    decreases a.len(),
{
    if a.len() == 0 {
        if b.len() == 0 {
            assert(a =~= b);
        }
    } else if b.len() > 0 && a[0] == b[0] {
        law_precedes_total(a.drop_first(), b.drop_first());
        if a.drop_first() == b.drop_first() {
            assert(a =~= seq![a[0]] + a.drop_first());
            assert(b =~= seq![b[0]] + b.drop_first());
        }
    }
}

/// How two strings compare.
#[derive(Clone, Copy, Debug, PartialEq, Eq, Structural)]
pub enum Side {
    Before,
    Same,
    After,
}

/// Compares two strings.
pub fn side(a: &str, b: &str) -> (side: Side)
    ensures
        match side {
            Side::Before => precedes(a@, b@) && a@ != b@,
            Side::Same => a@ == b@,
            Side::After => precedes(b@, a@) && a@ != b@,
        },
{
    let x = chars_of(a);
    let y = chars_of(b);
    proof {
        law_precedes_irreflexive(a@);
    }
    let mut i: usize = 0;
    assert(x@.skip(0) =~= x@ && y@.skip(0) =~= y@);
    while i < x.len() && i < y.len()
        invariant
            x@ == a@,
            y@ == b@,
            i <= x@.len(),
            i <= y@.len(),
            !precedes(a@, a@),
            precedes(a@, b@) == precedes(x@.skip(i as int), y@.skip(i as int)),
            precedes(b@, a@) == precedes(y@.skip(i as int), x@.skip(i as int)),
            x@.take(i as int) == y@.take(i as int),
        decreases x@.len() - i,
    {
        if x[i] < y[i] {
            return Side::Before;
        }
        if y[i] < x[i] {
            return Side::After;
        }
        proof {
            assert(x@.skip(i as int).drop_first() =~= x@.skip(i + 1));
            assert(y@.skip(i as int).drop_first() =~= y@.skip(i + 1));
            assert(x@.take(i + 1) =~= x@.take(i as int).push(x@[i as int]));
            assert(y@.take(i + 1) =~= y@.take(i as int).push(y@[i as int]));
        }
        i = i + 1;
    }
    if i < y.len() {
        Side::Before
    } else if i < x.len() {
        Side::After
    } else {
        assert(x@.take(i as int) =~= x@ && y@.take(i as int) =~= y@);
        Side::Same
    }
}

/// In order, without repetition.
pub open spec fn ascending(list: Seq<Seq<char>>) -> bool {
    forall|i: int, j: int| 0 <= i < j < list.len() ==> precedes(#[trigger] list[i], #[trigger] list[j])
}

/// An ascending list holds nothing twice.
pub proof fn law_ascending_is_distinct(list: Seq<Seq<char>>)
    requires
        ascending(list),
    ensures
        list.no_duplicates(),
{
    assert forall|i: int, j: int|
        0 <= i < list.len() && 0 <= j < list.len() && i != j implies list[i] != list[j] by {
        law_precedes_irreflexive(list[i]);
        if i < j {
            assert(precedes(list[i], list[j]));
        } else {
            assert(precedes(list[j], list[i]));
        }
    }
}

/// Two ascending lists with the same members are the same list.
pub proof fn law_ascending_is_unique(a: Seq<Seq<char>>, b: Seq<Seq<char>>)
    requires
        ascending(a),
        ascending(b),
        forall|t: Seq<char>| #[trigger] a.contains(t) <==> b.contains(t),
    ensures
        a == b,
    decreases a.len(),
{
    law_ascending_is_distinct(a);
    law_ascending_is_distinct(b);
    if a.len() == 0 {
        if b.len() > 0 {
            assert(b.contains(b[0]));
            assert(a.contains(b[0]));
        }
        assert(a =~= b);
    } else {
        assert(a.contains(a.last()));
        let i = b.index_of(a.last());
        assert(b[i] == a.last());
        assert(b.contains(b.last()));
        assert(a.contains(b.last()));
        let j = a.index_of(b.last());
        assert(a[j] == b.last());
        if i < b.len() - 1 {
            assert(precedes(b[i], b.last()));
            if j < a.len() - 1 {
                assert(precedes(a[j], a.last()));
                law_precedes_transitive(a.last(), b.last(), a.last());
            }
            law_precedes_irreflexive(a.last());
            assert(false);
        }
        let x = a.drop_last();
        let y = b.drop_last();
        assert(ascending(x)) by {
            assert forall|i: int, j: int| 0 <= i < j < x.len() implies precedes(
                #[trigger] x[i],
                #[trigger] x[j],
            ) by {
                assert(precedes(a[i], a[j]));
            }
        }
        assert(ascending(y)) by {
            assert forall|i: int, j: int| 0 <= i < j < y.len() implies precedes(
                #[trigger] y[i],
                #[trigger] y[j],
            ) by {
                assert(precedes(b[i], b[j]));
            }
        }
        assert forall|t: Seq<char>| #[trigger] x.contains(t) <==> y.contains(t) by {
            if x.contains(t) {
                let k = x.index_of(t);
                assert(a[k] == t);
                assert(a.contains(t));
                let m = b.index_of(t);
                assert(b[m] == t);
                assert(y[m] == t);
            }
            if y.contains(t) {
                let k = y.index_of(t);
                assert(b[k] == t);
                assert(b.contains(t));
                assert(a.contains(t));
                let m = a.index_of(t);
                assert(a[m] == t);
                assert(x[m] == t);
            }
        }
        law_ascending_is_unique(x, y);
        assert(a =~= x.push(a.last()));
        assert(b =~= y.push(b.last()));
    }
}

/// Puts a string into an ascending list, unless it is there already.
pub fn insert(list: &mut Vec<String>, value: String) -> (inserted: bool)
    requires
        ascending(texts(old(list)@)),
    ensures
        ascending(texts(final(list)@)),
        inserted == !texts(old(list)@).contains(value@),
        forall|t: Seq<char>| #[trigger]
            texts(final(list)@).contains(t) <==> texts(old(list)@).contains(t) || t == value@,
{
    let ghost before = texts(list@);
    let mut i: usize = 0;
    while i < list.len()
        invariant
            list@ == old(list)@,
            before == texts(list@),
            ascending(before),
            i <= list@.len(),
            forall|j: int| 0 <= j < i ==> precedes(#[trigger] before[j], value@) && before[j]
                != value@,
        decreases list@.len() - i,
    {
        match side(list[i].as_str(), value.as_str()) {
            Side::Before => {
                assert(before[i as int] == list@[i as int]@);
            },
            Side::Same => {
                assert(before[i as int] == value@);
                assert(before.contains(value@));
                return false;
            },
            Side::After => {
                let ghost text = value@;
                proof {
                    assert(before[i as int] == list@[i as int]@);
                    lemma_insert(before, i as int, text);
                }
                list.insert(i, value);
                assert(texts(list@) =~= before.insert(i as int, text));
                return true;
            },
        }
        i = i + 1;
    }
    let ghost text = value@;
    proof {
        lemma_insert(before, i as int, text);
    }
    list.push(value);
    assert(texts(list@) =~= before.insert(i as int, text));
    true
}

/// Inserting where the order asks for it keeps an ascending list ascending.
pub proof fn lemma_insert(list: Seq<Seq<char>>, i: int, value: Seq<char>)
    requires
        ascending(list),
        0 <= i <= list.len(),
        forall|j: int| 0 <= j < i ==> precedes(#[trigger] list[j], value) && list[j] != value,
        i < list.len() ==> precedes(value, list[i]) && list[i] != value,
    ensures
        ascending(list.insert(i, value)),
        !list.contains(value),
        forall|t: Seq<char>| #[trigger]
            list.insert(i, value).contains(t) <==> list.contains(t) || t == value,
{
    let after = list.insert(i, value);
    assert forall|j: int| i <= j < list.len() implies precedes(value, #[trigger] list[j]) && list[j]
        != value by {
        if j > i {
            assert(precedes(list[i], list[j]));
            law_precedes_transitive(value, list[i], list[j]);
        }
        law_precedes_irreflexive(value);
    }
    assert forall|x: int, y: int| 0 <= x < y < after.len() implies precedes(
        #[trigger] after[x],
        #[trigger] after[y],
    ) by {
        if y < i {
            assert(after[x] == list[x] && after[y] == list[y]);
        } else if y == i {
            assert(after[x] == list[x]);
        } else if x < i {
            assert(after[x] == list[x] && after[y] == list[y - 1]);
        } else if x == i {
            assert(after[y] == list[y - 1]);
        } else {
            assert(after[x] == list[x - 1] && after[y] == list[y - 1]);
        }
    }
    assert forall|t: Seq<char>| #[trigger] after.contains(t) <==> list.contains(t) || t
        == value by {
        if list.contains(t) {
            let k = list.index_of(t);
            if k < i {
                assert(after[k] == t);
            } else {
                assert(after[k + 1] == t);
            }
        }
        if t == value {
            assert(after[i] == t);
        }
        if after.contains(t) {
            let k = after.index_of(t);
            if k < i {
                assert(list[k] == t);
            } else if k > i {
                assert(list[k - 1] == t);
            }
        }
    }
}

/// Whether a list holds a string.
pub fn holds(list: &Vec<String>, value: &str) -> (held: bool)
    ensures
        held == texts(list@).contains(value@),
{
    position_in(list, value).is_some()
}

/// Where `value` occurs first in a list.
pub open spec fn first_position(list: Seq<Seq<char>>, value: Seq<char>) -> Option<int> {
    if list.contains(value) {
        Some(
            choose|i: int|
                0 <= i < list.len() && list[i] == value && forall|j: int|
                    0 <= j < i ==> list[j] != value,
        )
    } else {
        None
    }
}

/// The first position is where the value is, and before it the value is not.
pub proof fn lemma_first_position(list: Seq<Seq<char>>, value: Seq<char>, i: int)
    requires
        0 <= i < list.len(),
        list[i] == value,
        forall|j: int| 0 <= j < i ==> list[j] != value,
    ensures
        first_position(list, value) == Some(i),
{
    assert(list.contains(value));
    let x = first_position(list, value)->0;
    assert(0 <= x < list.len() && list[x] == value && forall|j: int|
        0 <= j < x ==> list[j] != value);
    if x < i {
        assert(list[x] != value);
    } else if i < x {
        assert(list[i] != value);
    }
}

/// Where `value` occurs first in a list.
pub fn position_in(list: &Vec<String>, value: &str) -> (position: Option<usize>)
    ensures
        match position {
            Some(i) => i < list@.len() && first_position(texts(list@), value@) == Some(i as int)
                && texts(list@)[i as int] == value@,
            None => first_position(texts(list@), value@) is None,
        },
{
    let ghost all = texts(list@);
    let mut i: usize = 0;
    while i < list.len()
        invariant
            all == texts(list@),
            i <= list@.len(),
            forall|j: int| 0 <= j < i ==> all[j] != value@,
        decreases list@.len() - i,
    {
        assert(all[i as int] == list@[i as int]@);
        if crate::text::same(list[i].as_str(), value) {
            proof {
                lemma_first_position(all, value@, i as int);
            }
            return Some(i);
        }
        i = i + 1;
    }
    None
}

/// One string comes before another exactly if, behind what both begin with, it
/// ends and the other goes on, or its next character is the smaller one.
pub proof fn law_the_first_difference_decides(a: Seq<char>, b: Seq<char>, k: int)
    requires
        0 <= k <= a.len(),
        k <= b.len(),
        a.take(k) == b.take(k),
        k < a.len() && k < b.len() ==> a[k] != b[k],
    ensures
        precedes(a, b) <==> {
            ||| k == a.len() && k < b.len()
            ||| k < a.len() && k < b.len() && a[k] < b[k]
        },
    decreases k,
{
    if k > 0 {
        let x = a.drop_first();
        let y = b.drop_first();
        assert forall|i: int| 0 <= i < k implies a[i] == b[i] by {
            assert(a.take(k)[i] == a[i] && b.take(k)[i] == b[i]);
        }
        assert(x.take(k - 1) =~= y.take(k - 1));
        law_the_first_difference_decides(x, y, k - 1);
    }
}

} // verus!
