//! Options on a command line.
use vstd::prelude::*;

use crate::order::lemma_first_position;
use crate::order::first_position;
use crate::text::{begins, same, strip_prefix};
use crate::tooling::commands::word_views;

verus! {

/// How an argument relates to a list of option names.
pub enum OptionMatch {
    /// The name alone; the value follows.
    Bare(usize),
    /// The name, an equals sign and the value.
    Joined(usize, String),
    No,
}

/// The first name that `arg` starts with, an equals sign behind it.
pub open spec fn joined_name(arg: Seq<char>, names: Seq<Seq<char>>) -> Option<int>
    decreases names.len(),
{
    if names.len() == 0 {
        None
    } else {
        match joined_name(arg, names.drop_last()) {
            Some(k) => Some(k),
            None => if begins(arg, names.last() + "="@) {
                Some(names.len() - 1)
            } else {
                None
            },
        }
    }
}

/// What `arg` says behind the equals sign of a name.
pub open spec fn joined_value(arg: Seq<char>, name: Seq<char>) -> Seq<char> {
    arg.skip((name + "="@).len() as int)
}

/// An argument matched against option names.
pub fn match_option(arg: &str, names: &[&str]) -> (found: OptionMatch)
    ensures
        ({
            let all = word_views(names@);
            match found {
                OptionMatch::Bare(k) => first_position(all, arg@) == Some(k as int) && k
                    < names@.len(),
                OptionMatch::Joined(k, value) => {
                    &&& first_position(all, arg@) is None
                    &&& joined_name(arg@, all) == Some(k as int)
                    &&& k < names@.len()
                    &&& value@ == joined_value(arg@, all[k as int])
                },
                OptionMatch::No => first_position(all, arg@) is None && joined_name(
                    arg@,
                    all,
                ) is None,
            }
        }),
{
    let ghost all = word_views(names@);
    let mut k: usize = 0;
    while k < names.len()
        invariant
            all == word_views(names@),
            k <= names@.len(),
            forall|j: int| 0 <= j < k ==> all[j] != arg@,
        decreases names@.len() - k,
    {
        assert(all[k as int] == names@[k as int]@);
        if same(names[k], arg) {
            proof {
                lemma_first_position(all, arg@, k as int);
            }
            return OptionMatch::Bare(k);
        }
        k = k + 1;
    }
    let mut k: usize = 0;
    assert(all.take(0) =~= Seq::<Seq<char>>::empty());
    while k < names.len()
        invariant
            all == word_views(names@),
            first_position(all, arg@) is None,
            k <= names@.len(),
            joined_name(arg@, all.take(k as int)) is None,
        decreases names@.len() - k,
    {
        proof {
            assert(all.take(k + 1).drop_last() =~= all.take(k as int));
            assert(all.take(k + 1).last() == names@[k as int]@);
        }
        let mut front = names[k].to_owned();
        front.append("=");
        if let Some(value) = strip_prefix(arg, front.as_str()) {
            proof {
                lemma_joined_name(arg@, all, k + 1);
            }
            return OptionMatch::Joined(k, value);
        }
        k = k + 1;
    }
    assert(all.take(k as int) =~= all);
    OptionMatch::No
}

proof fn lemma_joined_name(arg: Seq<char>, names: Seq<Seq<char>>, n: int)
    requires
        0 <= n <= names.len(),
        joined_name(arg, names.take(n)) is Some,
    ensures
        joined_name(arg, names) == joined_name(arg, names.take(n)),
    decreases names.len() - n,
{
    if n < names.len() {
        assert(names.take(n + 1).drop_last() =~= names.take(n));
        lemma_joined_name(arg, names, n + 1);
    } else {
        assert(names.take(n) =~= names);
    }
}

/// A name with an equals sign and a value behind it is matched with that name,
/// and gives the value. Of the names only those count that hold no equals sign.
pub proof fn law_a_joined_option_gives_its_value(
    names: Seq<Seq<char>>,
    k: int,
    value: Seq<char>,
)
    requires
        0 <= k < names.len(),
        names.no_duplicates(),
        forall|i: int| 0 <= i < names.len() ==> !(#[trigger] names[i]).contains('='),
    ensures
        joined_name(names[k] + "="@ + value, names) == Some(k),
        joined_value(names[k] + "="@ + value, names[k]) == value,
        !names.contains(names[k] + "="@ + value),
{
    reveal_strlit("=");
    let arg = names[k] + "="@ + value;
    let at = names[k].len() as int;
    assert(arg[at] == '=');
    if names.contains(arg) {
        let i = names.index_of(arg);
        assert(names[i][at] == '=');
        assert(names[i].contains('='));
    }
    assert(arg.skip((names[k] + "="@).len() as int) =~= value);
    assert(arg.take((names[k] + "="@).len() as int) =~= names[k] + "="@);
    lemma_only_one_name(arg, names, k, names.len() as int);
    assert(names.take(names.len() as int) =~= names);
}

proof fn lemma_only_one_name(arg: Seq<char>, names: Seq<Seq<char>>, k: int, n: int)
    requires
        0 <= k < names.len(),
        0 <= n <= names.len(),
        names.no_duplicates(),
        forall|i: int| 0 <= i < names.len() ==> !(#[trigger] names[i]).contains('='),
        begins(arg, names[k] + "="@),
    ensures
        joined_name(arg, names.take(n)) == (if k < n {
            Some(k)
        } else {
            None
        }),
    decreases n,
{
    reveal_strlit("=");
    if n > 0 {
        lemma_only_one_name(arg, names, k, n - 1);
        let part = names.take(n);
        let i = n - 1;
        assert(part.drop_last() =~= names.take(n - 1));
        assert(part.last() == names[i]);
        if begins(arg, names[i] + "="@) {
            let a = names[i];
            let b = names[k];
            let x = a + "="@;
            let y = b + "="@;
            assert(arg.take(x.len() as int)[a.len() as int] == '=');
            assert(arg.take(y.len() as int)[b.len() as int] == '=');
            if a.len() < b.len() {
                assert(arg.take(y.len() as int)[a.len() as int] == b[a.len() as int]);
                assert(b.contains('='));
            }
            if b.len() < a.len() {
                assert(arg.take(x.len() as int)[b.len() as int] == a[b.len() as int]);
                assert(a.contains('='));
            }
            assert(a =~= b) by {
                assert forall|m: int| 0 <= m < a.len() implies a[m] == b[m] by {
                    assert(arg.take(x.len() as int)[m] == a[m]);
                    assert(arg.take(y.len() as int)[m] == b[m]);
                }
            }
            assert(i == k);
        } else if i == k {
            assert(false);
        }
    }
}

} // verus!
