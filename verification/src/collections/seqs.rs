//! What lists hold after simple changes.
use vstd::prelude::*;

verus! {

/// Adding to the end.
pub proof fn lemma_push<T>(list: Seq<T>, x: T)
    ensures
        forall|y: T|
            #![trigger list.push(x).contains(y)]
            #![trigger list.contains(y)]
            list.push(x).contains(y) <==> list.contains(y) || y == x,
        list.no_duplicates() && !list.contains(x) ==> list.push(x).no_duplicates(),
{
    let longer = list.push(x);
    assert forall|y: T|
        #![trigger list.push(x).contains(y)]
        #![trigger list.contains(y)]
        longer.contains(y) <==> list.contains(y) || y == x by {
        if list.contains(y) {
            let i = choose|i: int| 0 <= i < list.len() && list[i] == y;
            assert(longer[i] == y);
        }
        assert(longer[list.len() as int] == x);
        if longer.contains(y) && y != x {
            let i = choose|i: int| 0 <= i < longer.len() && longer[i] == y;
            assert(list[i] == y);
        }
    }
    if list.no_duplicates() && !list.contains(x) {
        assert forall|i: int, j: int| 0 <= i < j < longer.len() implies longer[i] != longer[j] by {
            assert(longer[i] == list[i]);
        }
    }
}

/// Adding to the front.
pub proof fn lemma_cons<T>(x: T, list: Seq<T>)
    ensures
        forall|y: T|
            #![trigger (seq![x] + list).contains(y)]
            #![trigger list.contains(y)]
            (seq![x] + list).contains(y) <==> y == x || list.contains(y),
        list.no_duplicates() && !list.contains(x) ==> (seq![x] + list).no_duplicates(),
{
    let longer = seq![x] + list;
    assert forall|y: T|
        #![trigger (seq![x] + list).contains(y)]
        #![trigger list.contains(y)]
        longer.contains(y) <==> y == x || list.contains(y) by {
        if longer.contains(y) && y != x {
            let i = choose|i: int| 0 <= i < longer.len() && longer[i] == y;
            assert(list[i - 1] == y);
        }
        if list.contains(y) {
            let i = choose|i: int| 0 <= i < list.len() && list[i] == y;
            assert(longer[i + 1] == y);
        }
        assert(longer[0] == x);
    }
    if list.no_duplicates() && !list.contains(x) {
        assert forall|i: int, j: int| 0 <= i < j < longer.len() implies longer[i] != longer[j] by {
            assert(longer[j] == list[j - 1]);
            assert(i > 0 ==> longer[i] == list[i - 1]);
        }
    }
}

/// Taking off the front.
pub proof fn lemma_tail<T>(list: Seq<T>)
    requires
        list.len() > 0,
        list.no_duplicates(),
    ensures
        forall|y: T|
            #![trigger list.skip(1).contains(y)]
            #![trigger list.contains(y)]
            list.skip(1).contains(y) <==> list.contains(y) && y != list[0],
        list.skip(1).no_duplicates(),
{
    let rest = list.skip(1);
    assert forall|y: T|
        #![trigger list.skip(1).contains(y)]
        #![trigger list.contains(y)]
        rest.contains(y) <==> list.contains(y) && y != list[0] by {
        if rest.contains(y) {
            let i = choose|i: int| 0 <= i < rest.len() && rest[i] == y;
            assert(list[i + 1] == y);
        }
        if list.contains(y) && y != list[0] {
            let i = choose|i: int| 0 <= i < list.len() && list[i] == y;
            assert(rest[i - 1] == y);
        }
    }
}

/// Putting two lists together.
pub proof fn lemma_concat<T>(a: Seq<T>, b: Seq<T>)
    ensures
        forall|y: T| #[trigger] (a + b).contains(y) <==> a.contains(y) || b.contains(y),
        a.no_duplicates() && b.no_duplicates() && (forall|y: T| a.contains(y) ==> !b.contains(y))
            ==> (a + b).no_duplicates(),
{
    let both = a + b;
    assert forall|y: T| #[trigger] both.contains(y) <==> a.contains(y) || b.contains(y) by {
        if a.contains(y) {
            let i = choose|i: int| 0 <= i < a.len() && a[i] == y;
            assert(both[i] == y);
        }
        if b.contains(y) {
            let i = choose|i: int| 0 <= i < b.len() && b[i] == y;
            assert(both[a.len() + i] == y);
        }
        if both.contains(y) {
            let i = choose|i: int| 0 <= i < both.len() && both[i] == y;
            if i < a.len() {
                assert(a[i] == y);
            } else {
                assert(b[i - a.len()] == y);
            }
        }
    }
    if a.no_duplicates() && b.no_duplicates() && (forall|y: T| a.contains(y) ==> !b.contains(y)) {
        assert forall|i: int, j: int| 0 <= i < j < both.len() implies both[i] != both[j] by {
            if i < a.len() {
                assert(a.contains(both[i]));
                if j >= a.len() {
                    assert(b[j - a.len()] == both[j]);
                    assert(b.contains(both[j]));
                }
            } else {
                assert(b[i - a.len()] == both[i]);
                assert(b[j - a.len()] == both[j]);
            }
        }
    }
}

} // verus!
