use vstd::prelude::*;
use crate::payload::Payload;

verus! {

/// Items that carry an order key by which they are ranked.
pub trait Ranked {
    /// The order key of the item.
    spec fn rank_of(&self) -> u32;

    /// Reads the order key of the item.
    fn rank(&self) -> (r: u32)
        ensures
            r == self.rank_of(),
    ;
}

/// A graph candidate: `(distance key, point identifier)`.
impl Ranked for (u32, u64) {
    open spec fn rank_of(&self) -> u32 {
        self.0
    }

    fn rank(&self) -> (r: u32) {
        self.0
    }
}

/// A search hit: `(point identifier, score key, payload of the point)`.
pub type SearchResult = (u64, u32, Option<Payload>);

/// Hits are ranked by their score key.
impl Ranked for (u64, u32, Option<Payload>) {
    open spec fn rank_of(&self) -> u32 {
        self.1
    }

    fn rank(&self) -> (r: u32) {
        self.1
    }
}

/// Must an item of key `a` come strictly before one of key `b`? Ascending
/// order puts smaller keys first, descending order larger ones.
pub open spec fn precedes(a: u32, b: u32, descending: bool) -> bool {
    if descending {
        a > b
    } else {
        a < b
    }
}

/// Where a stable insertion puts `x` into `s`: after every item that `x`
/// does not strictly precede.
pub open spec fn insert_pos<T: Ranked>(s: Seq<T>, x: T, descending: bool) -> int
    decreases s.len(),
{
    if s.len() == 0 {
        0
    } else if precedes(x.rank_of(), s.last().rank_of(), descending) {
        insert_pos(s.drop_last(), x, descending)
    } else {
        s.len() as int
    }
}

/// `s` in stable order: by key (ascending or descending), items with equal
/// keys keeping their relative order.
pub open spec fn stable_sorted<T: Ranked>(s: Seq<T>, descending: bool) -> Seq<T>
    decreases s.len(),
{
    if s.len() == 0 {
        s
    } else {
        let rest = stable_sorted(s.drop_last(), descending);
        rest.insert(insert_pos(rest, s.last(), descending), s.last())
    }
}

/// No item of `s` strictly precedes an item before it.
pub open spec fn is_ranked<T: Ranked>(s: Seq<T>, descending: bool) -> bool {
    forall|i: int, j: int|
        0 <= i < j < s.len() ==> !precedes(#[trigger] s[j].rank_of(), #[trigger] s[i].rank_of(), descending)
}

proof fn lemma_insert_pos_bounds<T: Ranked>(s: Seq<T>, x: T, descending: bool)
    ensures
        0 <= insert_pos(s, x, descending) <= s.len(),
        forall|k: int|
            insert_pos(s, x, descending) <= k < s.len() ==> precedes(
                x.rank_of(),
                #[trigger] s[k].rank_of(),
                descending,
            ),
        insert_pos(s, x, descending) > 0 ==> !precedes(
            x.rank_of(),
            s[insert_pos(s, x, descending) - 1].rank_of(),
            descending,
        ),
    decreases s.len(),
{
    if s.len() > 0 && precedes(x.rank_of(), s.last().rank_of(), descending) {
        lemma_insert_pos_bounds(s.drop_last(), x, descending);
        let p = insert_pos(s, x, descending);
        assert forall|k: int| p <= k < s.len() implies precedes(
            x.rank_of(),
            #[trigger] s[k].rank_of(),
            descending,
        ) by {
            if k < s.len() - 1 {
                assert(s[k] == s.drop_last()[k]);
            }
        }
        if p > 0 {
            assert(s[p - 1] == s.drop_last()[p - 1]);
        }
    }
}

/// Stable sorting yields a ranked permutation of its input.
pub proof fn lemma_stable_sorted<T: Ranked>(s: Seq<T>, descending: bool)
    ensures
        stable_sorted(s, descending).len() == s.len(),
        stable_sorted(s, descending).to_multiset() == s.to_multiset(),
        is_ranked(stable_sorted(s, descending), descending),
    decreases s.len(),
{
    broadcast use vstd::seq_lib::group_to_multiset_ensures;

    if s.len() > 0 {
        let rest = stable_sorted(s.drop_last(), descending);
        lemma_stable_sorted(s.drop_last(), descending);
        let x = s.last();
        lemma_insert_pos_bounds(rest, x, descending);
        let p = insert_pos(rest, x, descending);
        let r = rest.insert(p, x);
        assert(r.to_multiset() == rest.to_multiset().insert(x)) by {
            vstd::seq_lib::lemma_seq_union_to_multiset_commutative(rest.take(p), seq![x]);
            assert(r =~= rest.take(p) + seq![x] + rest.skip(p));
            assert(rest =~= rest.take(p) + rest.skip(p));
            vstd::seq_lib::lemma_multiset_commutative(rest.take(p) + seq![x], rest.skip(p));
            vstd::seq_lib::lemma_multiset_commutative(rest.take(p), rest.skip(p));
            vstd::seq_lib::lemma_multiset_commutative(rest.take(p), seq![x]);
        }
        assert(s =~= s.drop_last().push(x));
        assert forall|i: int, j: int| 0 <= i < j < r.len() implies !precedes(
            #[trigger] r[j].rank_of(),
            #[trigger] r[i].rank_of(),
            descending,
        ) by {
            if j < p {
                assert(r[i] == rest[i] && r[j] == rest[j]);
            } else if j == p {
                assert(r[i] == rest[i]);
                assert(!precedes(x.rank_of(), rest[p - 1].rank_of(), descending));
                assert(!precedes(rest[p - 1].rank_of(), rest[i].rank_of(), descending) || i == p - 1);
            } else if i < p {
                assert(r[i] == rest[i] && r[j] == rest[j - 1]);
            } else if i == p {
                assert(r[j] == rest[j - 1]);
                assert(precedes(x.rank_of(), rest[j - 1].rank_of(), descending));
            } else {
                assert(r[i] == rest[i - 1] && r[j] == rest[j - 1]);
            }
        }
    }
}

/// Stable sorting keeps exactly the items it was given.
pub proof fn lemma_sorted_members<T: Ranked>(s: Seq<T>, descending: bool)
    ensures
        stable_sorted(s, descending).len() == s.len(),
        forall|i: int|
            0 <= i < s.len() ==> s.contains(#[trigger] stable_sorted(s, descending)[i]),
        is_ranked(stable_sorted(s, descending), descending),
{
    broadcast use vstd::seq_lib::group_to_multiset_ensures;

    lemma_stable_sorted(s, descending);
    let r = stable_sorted(s, descending);
    assert forall|i: int| 0 <= i < s.len() implies s.contains(#[trigger] r[i]) by {
        assert(r.contains(r[i]));
        assert(r.to_multiset().count(r[i]) > 0);
    }
}

/// No identifier occurs twice among the `(key, identifier)` pairs.
pub open spec fn distinct_ids(s: Seq<(u32, u64)>) -> bool {
    forall|i: int, j: int| 0 <= i < j < s.len() ==> (#[trigger] s[i]).1 != (#[trigger] s[j]).1
}

/// Stable sorting keeps identifiers distinct.
pub proof fn lemma_sorted_distinct(s: Seq<(u32, u64)>, descending: bool)
    requires
        distinct_ids(s),
    ensures
        distinct_ids(stable_sorted(s, descending)),
    decreases s.len(),
{
    if s.len() > 0 {
        let d = s.drop_last();
        assert(distinct_ids(d)) by {
            assert forall|i: int, j: int| 0 <= i < j < d.len() implies (#[trigger] d[i]).1 != (#[trigger] d[j]).1 by {
                assert(d[i] == s[i] && d[j] == s[j]);
            }
        }
        lemma_sorted_distinct(d, descending);
        lemma_sorted_members(d, descending);
        let rest = stable_sorted(d, descending);
        let x = s.last();
        lemma_insert_pos_bounds(rest, x, descending);
        let p = insert_pos(rest, x, descending);
        let r = rest.insert(p, x);
        assert forall|k: int| 0 <= k < rest.len() implies (#[trigger] rest[k]).1 != x.1 by {
            assert(d.contains(rest[k]));
            let m = choose|m: int| 0 <= m < d.len() && d[m] == rest[k];
            assert(s[m] == d[m]);
        }
        assert forall|i: int, j: int| 0 <= i < j < r.len() implies (#[trigger] r[i]).1 != (#[trigger] r[j]).1 by {
            if j < p {
                assert(r[i] == rest[i] && r[j] == rest[j]);
            } else if j == p {
                assert(r[i] == rest[i]);
            } else if i < p {
                assert(r[i] == rest[i] && r[j] == rest[j - 1]);
            } else if i == p {
                assert(r[j] == rest[j - 1]);
            } else {
                assert(r[i] == rest[i - 1] && r[j] == rest[j - 1]);
            }
        }
    }
}

/// Sorts `items` by key, ascending or descending, keeping items with equal
/// keys in their relative order.
pub fn stable_sort<T: Ranked>(items: &mut Vec<T>, descending: bool)
    ensures
        final(items)@ == stable_sorted(old(items)@, descending),
{
    let ghost initial = items@;
    let n = items.len();
    let mut i: usize = 0;
    while i < n
        invariant
            n == initial.len(),
            items@.len() == n,
            i <= n,
            items@.take(i as int) == stable_sorted(initial.take(i as int), descending),
            items@.skip(i as int) == initial.skip(i as int),
        decreases n - i,
    {
        let ghost sorted_prefix = items@.take(i as int);
        let ghost before = items@;
        assert(before[i as int] == before.skip(i as int)[0]);
        assert(initial[i as int] == initial.skip(i as int)[0]);
        let x = items.remove(i);
        assert(x == initial[i as int]);
        let ghost after_remove = items@;
        assert(items@.take(i as int) =~= sorted_prefix);
        assert(sorted_prefix.take(i as int) =~= sorted_prefix);
        let key = x.rank();
        let mut j: usize = i;
        while j > 0 && precedes_exec(key, items[j - 1].rank(), descending)
            invariant
                j <= i,
                i < n,
                items@.len() == n - 1,
                items@.take(i as int) == sorted_prefix,
                key == x.rank_of(),
                insert_pos(sorted_prefix, x, descending) == insert_pos(
                    sorted_prefix.take(j as int),
                    x,
                    descending,
                ),
            decreases j,
        {
            assert(sorted_prefix.take(j as int).drop_last() =~= sorted_prefix.take(j - 1));
            j = j - 1;
        }
        assert(sorted_prefix.take(j as int) =~= sorted_prefix.take(j as int));
        items.insert(j, x);
        i = i + 1;
        proof {
            assert(initial.take(i as int).drop_last() =~= initial.take(i - 1));
            assert(initial.take(i as int).last() == x);
        }
        assert(items@.take(i as int) =~= stable_sorted(initial.take(i as int), descending));
        assert forall|k: int| 0 <= k < items@.skip(i as int).len() implies #[trigger] items@.skip(
            i as int,
        )[k] == initial.skip(i as int)[k] by {
            assert(items@[i + k] == after_remove[i + k - 1]);
            assert(after_remove[i + k - 1] == before[i + k]);
            assert(before[i + k] == before.skip(i - 1)[k + 1]);
        }
        assert(items@.skip(i as int) =~= initial.skip(i as int));
    }
    assert(initial.take(n as int) =~= initial);
    assert(items@.take(n as int) =~= items@);
}

/// Must an item of key `a` come strictly before one of key `b`?
pub fn precedes_exec(a: u32, b: u32, descending: bool) -> (r: bool)
    ensures
        r == precedes(a, b, descending),
{
    if descending {
        a > b
    } else {
        a < b
    }
}

} // verus!
