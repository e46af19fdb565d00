use vstd::prelude::*;

verus! {

/// Whether `x` occurs in `list`.
pub(crate) fn list_contains(list: &Vec<usize>, x: usize) -> (found: bool)
    ensures
        found == list@.contains(x),
{
    let mut i: usize = 0;
    while i < list.len()
        invariant
            i <= list.len(),
            forall|j: int| 0 <= j < i ==> list@[j] != x,
        decreases list.len() - i,
    {
        if list[i] == x {
            return true;
        }
        i = i + 1;
    }
    false
}

/// A sequence extended by one element holds exactly what it held before and
/// that element.
pub(crate) proof fn lemma_push_contains<A>(s: Seq<A>, a: A, x: A)
    ensures
        s.push(a).contains(x) <==> (s.contains(x) || x == a),
{
    if s.contains(x) {
        let j = choose|j: int| 0 <= j < s.len() && s[j] == x;
        assert(s.push(a)[j] == x);
    }
    if x == a {
        assert(s.push(a)[s.len() as int] == a);
    }
    if s.push(a).contains(x) {
        let j = choose|j: int| 0 <= j < s.len() + 1 && s.push(a)[j] == x;
        if j < s.len() {
            assert(s[j] == x);
        }
    }
}

/// Removing the entry at `i` of a sequence without repetition removes exactly
/// that value.
pub(crate) proof fn lemma_remove_contains<A>(s: Seq<A>, i: int, y: A)
    requires
        s.no_duplicates(),
        0 <= i < s.len(),
    ensures
        s.remove(i).no_duplicates(),
        s.remove(i).contains(y) <==> (s.contains(y) && y != s[i]),
{
    let r = s.remove(i);
    assert forall|a: int, b: int| 0 <= a < b < r.len() implies r[a] != r[b] by {
        let a2 = if a < i { a } else { a + 1 };
        let b2 = if b < i { b } else { b + 1 };
        assert(r[a] == s[a2] && r[b] == s[b2]);
    }
    if r.contains(y) {
        let j = choose|j: int| 0 <= j < r.len() && r[j] == y;
        let j2 = if j < i { j } else { j + 1 };
        assert(s[j2] == y);
    }
    if s.contains(y) && y != s[i] {
        let j = choose|j: int| 0 <= j < s.len() && s[j] == y;
        if j < i {
            assert(r[j] == y);
        } else {
            assert(r[j - 1] == y);
        }
    }
}

/// Where `x` occurs in `list`.
pub(crate) fn position_of(list: &Vec<usize>, x: usize) -> (i: usize)
    requires
        list@.contains(x),
    ensures
        i < list@.len(),
        list@[i as int] == x,
{
    let mut i: usize = 0;
    while i < list.len()
        invariant
            i <= list.len(),
            list@.contains(x),
            forall|j: int| 0 <= j < i ==> list@[j] != x,
        decreases list.len() - i,
    {
        if list[i] == x {
            return i;
        }
        i = i + 1;
    }
    proof {
        let j = choose|j: int| 0 <= j < list@.len() && list@[j] == x;
    }
    0
}

/// Removes the value `x` from a list that holds it once.
pub(crate) fn remove_value(list: &mut Vec<usize>, x: usize)
    requires
        old(list)@.no_duplicates(),
        old(list)@.contains(x),
    ensures
        final(list)@.no_duplicates(),
        final(list)@.len() == old(list)@.len() - 1,
        forall|y: usize| #[trigger]
            final(list)@.contains(y) <==> (old(list)@.contains(y) && y != x),
        forall|j: int|
            0 <= j < final(list)@.len() ==> old(list)@.contains(#[trigger] final(list)@[j]),
{
    let i = position_of(list, x);
    let ghost before = list@;
    list.remove(i);
    proof {
        assert forall|y: usize| #[trigger] list@.contains(y) <==> (before.contains(y) && y != x) by {
            lemma_remove_contains(before, i as int, y);
        }
        lemma_remove_contains(before, i as int, x);
        assert forall|j: int| 0 <= j < list@.len() implies before.contains(#[trigger] list@[j]) by {
            assert(list@.contains(list@[j]));
        }
    }
}

/// Every entry of every list is a task of a graph with `n` tasks, and no list
/// repeats an entry.
pub open spec fn lists_well_formed(lists: Seq<Vec<usize>>, n: nat) -> bool {
    &&& lists.len() == n
    &&& forall|t: int| 0 <= t < n ==> (#[trigger] lists[t])@.no_duplicates()
    &&& forall|t: int, i: int|
        0 <= t < n && 0 <= i < lists[t]@.len() ==> (#[trigger] lists[t]@[i]) < n
}

/// `forward[t]` holds `p` exactly when `backward[p]` holds `t`.
pub open spec fn lists_mirror(forward: Seq<Vec<usize>>, backward: Seq<Vec<usize>>, n: nat) -> bool {
    forall|t: int, p: int|
        0 <= t < n && 0 <= p < n ==> ((#[trigger] forward[t])@.contains(p as usize) <==> (
        #[trigger] backward[p])@.contains(t as usize))
}

} // verus!
