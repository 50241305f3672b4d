//! Bookkeeping of the active bullets: dropping those marked for removal.

use vstd::prelude::*;

verus! {

/// The items of `s` whose mark in `marked` is not set, in order.
pub open spec fn unmarked<T>(s: Seq<T>, marked: Seq<bool>) -> Seq<T>
    decreases s.len(),
{
    if s.len() == 0 {
        Seq::empty()
    } else if marked[0] {
        unmarked(s.drop_first(), marked.drop_first())
    } else {
        seq![s[0]] + unmarked(s.drop_first(), marked.drop_first())
    }
}

/// Removes exactly the items whose mark is set, keeping the others in order.
pub fn remove_marked<T>(items: &mut Vec<T>, marked: &Vec<bool>)
    requires
        marked.len() == old(items).len(),
    ensures
        final(items)@ == unmarked(old(items)@, marked@),
{
    let ghost s = items@;
    let ghost m = marked@;
    let mut i = items.len();
    proof {
        assert(s.skip(i as int) =~= Seq::<T>::empty());
        assert(s.take(i as int) =~= s);
        assert(s.take(i as int) + Seq::<T>::empty() =~= s);
    }
    while i > 0
        invariant
            0 <= i <= s.len(),
            m.len() == s.len(),
            m == marked@,
            items@ == s.take(i as int) + unmarked(s.skip(i as int), m.skip(i as int)),
        decreases i,
    {
        i = i - 1;
        let ghost rest = unmarked(s.skip(i + 1), m.skip(i + 1));
        proof {
            assert(s.skip(i as int).drop_first() =~= s.skip(i + 1));
            assert(m.skip(i as int).drop_first() =~= m.skip(i + 1));
            assert(s.skip(i as int)[0] == s[i as int]);
            assert(m.skip(i as int)[0] == m[i as int]);
            assert(s.take(i + 1) =~= s.take(i as int).push(s[i as int]));
        }
        if marked[i] {
            items.remove(i);
            proof {
                assert(items@ =~= s.take(i as int) + rest);
            }
        } else {
            proof {
                assert(items@ =~= s.take(i as int) + (seq![s[i as int]] + rest));
            }
        }
    }
    proof {
        assert(s.take(0) + unmarked(s.skip(0), m.skip(0)) =~= unmarked(s, m)) by {
            assert(s.skip(0) =~= s);
            assert(m.skip(0) =~= m);
        }
    }
}

} // verus!
