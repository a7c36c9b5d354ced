//! Grouping the items of a sequence by a value found in them.
//!
//! The groups come in the order in which their values first occur, and the
//! items of a group in the order of the sequence.

use vstd::prelude::*;
use vstd::laws_eq::obeys_concrete_eq;

verus! {

/// No position before `i` holds the key at `i`.
pub open spec fn is_first_occurrence<K>(keys: Seq<K>, i: int) -> bool {
    forall|j: int| 0 <= j < i ==> #[trigger] keys[j] != keys[i]
}

/// The positions below `n` that hold `k`, ascending.
pub open spec fn positions_of<K>(keys: Seq<K>, n: nat, k: K) -> Seq<int>
    decreases n,
{
    if n == 0 {
        Seq::empty()
    } else {
        let before = positions_of(keys, (n - 1) as nat, k);
        if keys[n - 1] == k {
            before.push(n - 1)
        } else {
            before
        }
    }
}

/// The positions below `n` at which a key occurs for the first time,
/// ascending.
pub open spec fn first_positions<K>(keys: Seq<K>, n: nat) -> Seq<int>
    decreases n,
{
    if n == 0 {
        Seq::empty()
    } else {
        let before = first_positions(keys, (n - 1) as nat);
        if is_first_occurrence(keys, n - 1) {
            before.push(n - 1)
        } else {
            before
        }
    }
}

/// The first `n` positions of `keys` in groups of equal keys: one group for
/// each key, in the order of first occurrence, each with its positions
/// ascending.
pub open spec fn group_positions<K>(keys: Seq<K>, n: nat) -> Seq<Seq<int>> {
    first_positions(keys, n).map_values(|f: int| positions_of(keys, n, keys[f]))
}

/// `s` is strictly ascending.
pub open spec fn ascending(s: Seq<int>) -> bool {
    forall|a: int, b: int| 0 <= a < b < s.len() ==> s[a] < s[b]
}

/// `positions_of` holds exactly the positions below `n` with key `k`, in
/// ascending order.
pub proof fn lemma_positions_of<K>(keys: Seq<K>, n: nat, k: K)
    requires
        n <= keys.len(),
    ensures
        forall|a: int|
            0 <= a < positions_of(keys, n, k).len() ==> 0 <= #[trigger] positions_of(keys, n, k)[a]
                < n && keys[positions_of(keys, n, k)[a]] == k,
        forall|i: int| 0 <= i < n && keys[i] == k ==> positions_of(keys, n, k).contains(i),
        ascending(positions_of(keys, n, k)),
    decreases n,
{
    if n > 0 {
        lemma_positions_of(keys, (n - 1) as nat, k);
        let before = positions_of(keys, (n - 1) as nat, k);
        let now = positions_of(keys, n, k);
        assert forall|i: int| 0 <= i < n && keys[i] == k implies now.contains(i) by {
            if i == n - 1 {
                assert(now[now.len() - 1] == i);
            } else {
                assert(before.contains(i));
                let a = choose|a: int| 0 <= a < before.len() && before[a] == i;
                assert(now[a] == i);
            }
        }
    }
}

/// `first_positions` holds exactly the first occurrences below `n`, in
/// ascending order.
pub proof fn lemma_first_positions<K>(keys: Seq<K>, n: nat)
    requires
        n <= keys.len(),
    ensures
        forall|a: int|
            0 <= a < first_positions(keys, n).len() ==> 0 <= #[trigger] first_positions(keys, n)[a]
                < n && is_first_occurrence(keys, first_positions(keys, n)[a]),
        forall|i: int|
            0 <= i < n && is_first_occurrence(keys, i) ==> first_positions(keys, n).contains(i),
        ascending(first_positions(keys, n)),
    decreases n,
{
    if n > 0 {
        lemma_first_positions(keys, (n - 1) as nat);
        let before = first_positions(keys, (n - 1) as nat);
        let now = first_positions(keys, n);
        assert forall|i: int| 0 <= i < n && is_first_occurrence(keys, i) implies now.contains(
            i,
        ) by {
            if i == n - 1 {
                assert(now[now.len() - 1] == i);
            } else {
                assert(before.contains(i));
                let a = choose|a: int| 0 <= a < before.len() && before[a] == i;
                assert(now[a] == i);
            }
        }
    }
}

/// The earliest position that holds the key at `i`.
pub proof fn lemma_earliest_occurrence<K>(keys: Seq<K>, i: int) -> (j: int)
    requires
        0 <= i < keys.len(),
    ensures
        0 <= j <= i,
        keys[j] == keys[i],
        is_first_occurrence(keys, j),
    decreases i,
{
    if is_first_occurrence(keys, i) {
        i
    } else {
        let earlier = choose|j: int| 0 <= j < i && keys[j] == keys[i];
        lemma_earliest_occurrence(keys, earlier)
    }
}

/// Two groups never share a key.
pub proof fn lemma_first_positions_distinct<K>(keys: Seq<K>, n: nat, a: int, b: int)
    requires
        n <= keys.len(),
        0 <= a < first_positions(keys, n).len(),
        0 <= b < first_positions(keys, n).len(),
        a != b,
    ensures
        keys[first_positions(keys, n)[a]] != keys[first_positions(keys, n)[b]],
{
    lemma_first_positions(keys, n);
    let first = first_positions(keys, n);
    if a < b {
        assert(first[a] < first[b]);
        assert(is_first_occurrence(keys, first[b]));
    } else {
        assert(first[b] < first[a]);
        assert(is_first_occurrence(keys, first[a]));
    }
}

/// Taking in position `n`, whose key is that of group `g`, extends group `g`
/// by `n` and leaves the other groups as they are.
pub proof fn lemma_group_extend<K>(keys: Seq<K>, n: nat, g: int)
    requires
        n < keys.len(),
        0 <= g < first_positions(keys, n).len(),
        keys[first_positions(keys, n)[g]] == keys[n as int],
    ensures
        group_positions(keys, n).len() == first_positions(keys, n).len(),
        group_positions(keys, n + 1) == group_positions(keys, n).update(
            g,
            group_positions(keys, n)[g].push(n as int),
        ),
{
    lemma_first_positions(keys, n);
    let first = first_positions(keys, n);
    assert(!is_first_occurrence(keys, n as int)) by {
        assert(0 <= first[g] < n);
    }
    assert(first_positions(keys, n + 1) == first);
    let before = group_positions(keys, n);
    let now = group_positions(keys, n + 1);
    assert forall|h: int| 0 <= h < first.len() implies now[h] == before.update(
        g,
        before[g].push(n as int),
    )[h] by {
        if h != g {
            lemma_first_positions_distinct(keys, n, h, g);
        }
    }
    assert(now =~= before.update(g, before[g].push(n as int)));
}

/// Taking in position `n`, whose key is that of no group, opens a group of
/// its own behind the others.
pub proof fn lemma_group_open<K>(keys: Seq<K>, n: nat)
    requires
        n < keys.len(),
        forall|g: int|
            0 <= g < first_positions(keys, n).len() ==> keys[#[trigger] first_positions(keys, n)[g]]
                != keys[n as int],
    ensures
        group_positions(keys, n).len() == first_positions(keys, n).len(),
        group_positions(keys, n + 1) == group_positions(keys, n).push(seq![n as int]),
{
    lemma_first_positions(keys, n);
    let first = first_positions(keys, n);
    assert(is_first_occurrence(keys, n as int)) by {
        if !is_first_occurrence(keys, n as int) {
            let j = choose|j: int| 0 <= j < n && keys[j] == keys[n as int];
            let e = lemma_earliest_occurrence(keys, j);
            assert(first.contains(e));
            let g = choose|g: int| 0 <= g < first.len() && first[g] == e;
            assert(keys[first[g]] != keys[n as int]);
        }
    }
    assert(first_positions(keys, n + 1) == first.push(n as int));
    lemma_positions_of(keys, n, keys[n as int]);
    let alone = positions_of(keys, n, keys[n as int]);
    assert(alone.len() == 0) by {
        if alone.len() > 0 {
            assert(0 <= alone[0] < n && keys[alone[0]] == keys[n as int]);
        }
    }
    assert(positions_of(keys, n + 1, keys[n as int]) =~= seq![n as int]);
    let before = group_positions(keys, n);
    let now = group_positions(keys, n + 1);
    assert forall|h: int| 0 <= h < now.len() implies now[h] == before.push(seq![n as int])[h] by {
        if h < first.len() {
            assert(keys[first[h]] != keys[n as int]);
        }
    }
    assert(now =~= before.push(seq![n as int]));
}

/// `i` and `j` hold the same key, `i` before `j`, and no position between
/// them holds it.
pub open spec fn neighbours<K>(keys: Seq<K>, i: int, j: int) -> bool {
    &&& 0 <= i < j < keys.len()
    &&& keys[i] == keys[j]
    &&& forall|m: int| i < m < j ==> #[trigger] keys[m] != keys[i]
}

/// Positions that follow each other in a group are neighbours.
pub proof fn lemma_consecutive_are_neighbours<K>(keys: Seq<K>, n: nat, k: K, a: int)
    requires
        n <= keys.len(),
        0 <= a,
        a + 1 < positions_of(keys, n, k).len(),
    ensures
        neighbours(keys, positions_of(keys, n, k)[a], positions_of(keys, n, k)[a + 1]),
        keys[positions_of(keys, n, k)[a]] == k,
        positions_of(keys, n, k)[a + 1] < n,
{
    lemma_positions_of(keys, n, k);
    let pos = positions_of(keys, n, k);
    let i = pos[a];
    let j = pos[a + 1];
    assert forall|m: int| i < m < j implies #[trigger] keys[m] != keys[i] by {
        if keys[m] == k {
            assert(pos.contains(m));
            let c = choose|c: int| 0 <= c < pos.len() && pos[c] == m;
            if c <= a {
                assert(c == a || pos[c] < pos[a]);
            } else {
                assert(c == a + 1 || pos[a + 1] < pos[c]);
            }
        }
    }
}

/// Neighbours below `n` follow each other in the group of their key.
pub proof fn lemma_neighbours_are_consecutive<K>(keys: Seq<K>, n: nat, i: int, j: int) -> (a: int)
    requires
        n <= keys.len(),
        neighbours(keys, i, j),
        j < n,
    ensures
        0 <= a,
        a + 1 < positions_of(keys, n, keys[i]).len(),
        positions_of(keys, n, keys[i])[a] == i,
        positions_of(keys, n, keys[i])[a + 1] == j,
{
    lemma_positions_of(keys, n, keys[i]);
    let pos = positions_of(keys, n, keys[i]);
    assert(pos.contains(i));
    assert(pos.contains(j));
    let a = choose|a: int| 0 <= a < pos.len() && pos[a] == i;
    let b = choose|b: int| 0 <= b < pos.len() && pos[b] == j;
    if b <= a {
        assert(b == a || pos[b] < pos[a]);
    }
    if b > a + 1 {
        assert(pos[a] < pos[a + 1] < pos[b]);
        assert(keys[pos[a + 1]] == keys[i]);
    }
    a
}

/// The group of the key at `i`, for a position `i` below `n`.
pub proof fn lemma_group_of<K>(keys: Seq<K>, n: nat, i: int) -> (g: int)
    requires
        n <= keys.len(),
        0 <= i < n,
    ensures
        0 <= g < group_positions(keys, n).len(),
        group_positions(keys, n)[g] == positions_of(keys, n, keys[i]),
{
    lemma_first_positions(keys, n);
    let first = first_positions(keys, n);
    let e = lemma_earliest_occurrence(keys, i);
    assert(first.contains(e));
    choose|g: int| 0 <= g < first.len() && first[g] == e
}

/// Position `i` stands somewhere in `layout`.
pub open spec fn occurs_in(layout: Seq<Seq<int>>, i: int) -> bool {
    exists|g: int, k: int|
        0 <= g < layout.len() && 0 <= k < layout[g].len() && #[trigger] layout[g][k] == i
}

/// `layout` deals the positions below `n` out to groups: every position
/// stands in one group, once, and nothing else stands there. No group is
/// empty, and each has its positions ascending.
pub open spec fn is_partition(layout: Seq<Seq<int>>, n: nat) -> bool {
    &&& forall|g: int|
        0 <= g < layout.len() ==> (#[trigger] layout[g]).len() > 0 && ascending(layout[g])
    &&& forall|g: int, k: int|
        0 <= g < layout.len() && 0 <= k < layout[g].len() ==> 0 <= #[trigger] layout[g][k] < n
    &&& forall|i: int| 0 <= i < n ==> #[trigger] occurs_in(layout, i)
    &&& forall|g: int, h: int, k: int, l: int|
        0 <= g < layout.len() && 0 <= h < layout.len() && 0 <= k < layout[g].len() && 0 <= l
            < layout[h].len() && #[trigger] layout[g][k] == #[trigger] layout[h][l] ==> g == h
            && k == l
}

/// Position `n` put at the end of group `g` keeps the positions dealt
/// out.
pub proof fn lemma_partition_extend(layout: Seq<Seq<int>>, n: nat, g: int)
    requires
        is_partition(layout, n),
        0 <= g < layout.len(),
    ensures
        is_partition(layout.update(g, layout[g].push(n as int)), n + 1),
{
    let wider = layout.update(g, layout[g].push(n as int));
    assert forall|h: int| 0 <= h < wider.len() implies (#[trigger] wider[h]).len() > 0
        && ascending(wider[h]) by {
        assert(layout[h].len() > 0 && ascending(layout[h]));
        if h == g {
            assert forall|a: int, b: int| 0 <= a < b < wider[h].len() implies wider[h][a]
                < wider[h][b] by {
                assert(0 <= layout[g][a] < n);
                if b < layout[g].len() {
                    assert(layout[g][a] < layout[g][b]);
                }
            }
        }
    }
    assert forall|h: int, k: int| 0 <= h < wider.len() && 0 <= k < wider[h].len() implies 0
        <= #[trigger] wider[h][k] < n + 1 by {
        if h != g || k < layout[g].len() {
            assert(0 <= layout[h][k] < n);
        }
    }
    assert forall|i: int| 0 <= i < n + 1 implies #[trigger] occurs_in(wider, i) by {
        if i == n {
            assert(wider[g][layout[g].len() as int] == i);
        } else {
            assert(occurs_in(layout, i));
            let (h, k) = choose|h: int, k: int|
                0 <= h < layout.len() && 0 <= k < layout[h].len() && #[trigger] layout[h][k] == i;
            assert(wider[h][k] == i);
        }
    }
    assert forall|h: int, m: int, k: int, l: int|
        0 <= h < wider.len() && 0 <= m < wider.len() && 0 <= k < wider[h].len() && 0 <= l
            < wider[m].len() && #[trigger] wider[h][k] == #[trigger] wider[m][l] implies h == m
        && k == l by {
        let first_new = h == g && k == layout[g].len();
        let second_new = m == g && l == layout[g].len();
        if !first_new {
            assert(wider[h][k] == layout[h][k] && 0 <= layout[h][k] < n);
        }
        if !second_new {
            assert(wider[m][l] == layout[m][l] && 0 <= layout[m][l] < n);
        }
    }
}

/// Position `n` put into a group of its own keeps the positions dealt
/// out.
pub proof fn lemma_partition_open(layout: Seq<Seq<int>>, n: nat)
    requires
        is_partition(layout, n),
    ensures
        is_partition(layout.push(seq![n as int]), n + 1),
{
    let wider = layout.push(seq![n as int]);
    assert forall|h: int| 0 <= h < wider.len() implies (#[trigger] wider[h]).len() > 0
        && ascending(wider[h]) by {
        if h < layout.len() {
            assert(layout[h].len() > 0 && ascending(layout[h]));
        }
    }
    assert forall|h: int, k: int| 0 <= h < wider.len() && 0 <= k < wider[h].len() implies 0
        <= #[trigger] wider[h][k] < n + 1 by {
        if h < layout.len() {
            assert(0 <= layout[h][k] < n);
        }
    }
    assert forall|i: int| 0 <= i < n + 1 implies #[trigger] occurs_in(wider, i) by {
        if i == n {
            assert(wider[layout.len() as int][0] == i);
        } else {
            assert(occurs_in(layout, i));
            let (h, k) = choose|h: int, k: int|
                0 <= h < layout.len() && 0 <= k < layout[h].len() && #[trigger] layout[h][k] == i;
            assert(wider[h][k] == i);
        }
    }
    assert forall|h: int, m: int, k: int, l: int|
        0 <= h < wider.len() && 0 <= m < wider.len() && 0 <= k < wider[h].len() && 0 <= l
            < wider[m].len() && #[trigger] wider[h][k] == #[trigger] wider[m][l] implies h == m
        && k == l by {
        if h < layout.len() {
            assert(wider[h][k] == layout[h][k] && 0 <= layout[h][k] < n);
        }
        if m < layout.len() {
            assert(wider[m][l] == layout[m][l] && 0 <= layout[m][l] < n);
        }
    }
}

/// The sizes of the groups.
pub open spec fn sizes<A>(groups: Seq<Vec<A>>) -> Seq<nat> {
    Seq::new(groups.len(), |g: int| groups[g]@.len())
}

/// The numbers of `sizes` added up.
pub open spec fn total(sizes: Seq<nat>) -> nat
    decreases sizes.len(),
{
    if sizes.len() == 0 {
        0
    } else {
        total(sizes.drop_last()) + sizes.last()
    }
}

/// One more in one place is one more in all.
pub proof fn lemma_total_grows(sizes: Seq<nat>, g: int)
    requires
        0 <= g < sizes.len(),
    ensures
        total(sizes.update(g, sizes[g] + 1)) == total(sizes) + 1,
    decreases sizes.len(),
{
    let more = sizes.update(g, sizes[g] + 1);
    if g == sizes.len() - 1 {
        assert(more.drop_last() =~= sizes.drop_last());
    } else {
        lemma_total_grows(sizes.drop_last(), g);
        assert(more.drop_last() =~= sizes.drop_last().update(g, sizes[g] + 1));
    }
}

/// The values at `index` of each item of `array`.
pub open spec fn keys_at<T>(array: Seq<Vec<T>>, index: int) -> Seq<T> {
    Seq::new(array.len(), |i: int| array[i]@[index])
}

/// The positions held by `groups`, as mathematical integers.
pub open spec fn positions_view(groups: Seq<Vec<usize>>) -> Seq<Seq<int>> {
    Seq::new(groups.len(), |g: int| Seq::new(groups[g]@.len(), |k: int| groups[g]@[k] as int))
}

/// Groups the positions of `array` by the value at `index` of the item
/// there. Whatever `==` on `T` is, every position of `array` comes to stand
/// in one group, once; no group is empty, and each has its positions
/// ascending. Where `==` on `T` is plain equality, the result is
/// `group_positions` of the values.
pub fn group_indices<T: PartialEq>(array: &[Vec<T>], index: usize) -> (groups: Vec<Vec<usize>>)
    requires
        forall|i: int| 0 <= i < array@.len() ==> index < (#[trigger] array@[i])@.len(),
    ensures
        is_partition(positions_view(groups@), array@.len()),
        total(sizes(groups@)) == array@.len(),
        forall|g: int| 0 <= g < groups@.len() ==> (#[trigger] groups@[g])@.len() > 0,
        forall|g: int, k: int|
            0 <= g < groups@.len() && 0 <= k < groups@[g]@.len() ==> (#[trigger] groups@[g]@[k])
                < array@.len(),
        obeys_concrete_eq::<T>() ==> positions_view(groups@) == group_positions(
            keys_at(array@, index as int),
            array@.len(),
        ),
{
    let ghost keys = keys_at(array@, index as int);
    let mut groups: Vec<Vec<usize>> = Vec::new();
    let mut i: usize = 0;
    assert(positions_view(groups@) =~~= group_positions(keys, 0));
    while i < array.len()
        invariant
            i <= array@.len(),
            keys == keys_at(array@, index as int),
            is_partition(positions_view(groups@), i as nat),
            total(sizes(groups@)) == i,
            forall|j: int| 0 <= j < array@.len() ==> index < (#[trigger] array@[j])@.len(),
            forall|g: int| 0 <= g < groups@.len() ==> (#[trigger] groups@[g])@.len() > 0,
            forall|g: int, k: int|
                0 <= g < groups@.len() && 0 <= k < groups@[g]@.len() ==> (
                #[trigger] groups@[g]@[k]) < i,
            obeys_concrete_eq::<T>() ==> positions_view(groups@) == group_positions(
                keys,
                i as nat,
            ),
        decreases array@.len() - i,
    {
        let ghost first = first_positions(keys, i as nat);
        let ghost before = group_positions(keys, i as nat);
        proof {
            lemma_first_positions(keys, i as nat);
        }
        let mut g: usize = 0;
        let mut found: bool = false;
        while g < groups.len()
            invariant_except_break
                !found,
            invariant
                g <= groups@.len(),
                i < array@.len(),
                keys == keys_at(array@, index as int),
                first == first_positions(keys, i as nat),
                before == group_positions(keys, i as nat),
                forall|j: int| 0 <= j < array@.len() ==> index < (#[trigger] array@[j])@.len(),
                forall|h: int| 0 <= h < groups@.len() ==> (#[trigger] groups@[h])@.len() > 0,
                forall|h: int, k: int|
                    0 <= h < groups@.len() && 0 <= k < groups@[h]@.len() ==> (
                    #[trigger] groups@[h]@[k]) < i,
                obeys_concrete_eq::<T>() ==> positions_view(groups@) == before,
                obeys_concrete_eq::<T>() ==> forall|h: int|
                    0 <= h < g ==> keys[#[trigger] first[h]] != keys[i as int],
            ensures
                g <= groups@.len(),
                found ==> g < groups@.len(),
                obeys_concrete_eq::<T>() && found ==> keys[first[g as int]] == keys[i as int],
                obeys_concrete_eq::<T>() && !found ==> forall|h: int|
                    0 <= h < first.len() ==> keys[#[trigger] first[h]] != keys[i as int],
            decreases groups@.len() - g,
        {
            let member: usize = groups[g][0];
            assert(groups@[g as int]@[0] < i);
            proof {
                if obeys_concrete_eq::<T>() {
                    reveal(obeys_concrete_eq);
                    assert(positions_view(groups@)[g as int][0] == member);
                    lemma_positions_of(keys, i as nat, keys[first[g as int]]);
                    assert(keys[member as int] == keys[first[g as int]]);
                }
            }
            if array[member][index] == array[i][index] {
                found = true;
                break ;
            }
            g = g + 1;
        }
        if found {
            let ghost old_groups = groups@;
            let mut members: Vec<usize> = Vec::new();
            std::mem::swap(&mut members, &mut groups[g]);
            members.push(i);
            groups[g] = members;
            proof {
                assert forall|h: int, k: int|
                    0 <= h < groups@.len() && 0 <= k < groups@[h]@.len() implies (
                #[trigger] groups@[h]@[k]) < i + 1 by {
                    if h != g {
                        assert(groups@[h] == old_groups[h]);
                    } else if k < old_groups[h]@.len() {
                        assert(groups@[h]@[k] == old_groups[h]@[k]);
                    }
                }
                let dealt = positions_view(old_groups);
                assert(positions_view(groups@) =~~= dealt.update(
                    g as int,
                    dealt[g as int].push(i as int),
                )) by {
                    assert forall|h: int| 0 <= h < groups@.len() implies positions_view(
                        groups@,
                    )[h] =~= dealt.update(g as int, dealt[g as int].push(i as int))[h] by {
                        if h != g {
                            assert(groups@[h] == old_groups[h]);
                        } else {
                            assert forall|k: int|
                                0 <= k < groups@[h]@.len() implies positions_view(groups@)[h][k]
                                == dealt[h].push(i as int)[k] by {
                                if k < old_groups[h]@.len() {
                                    assert(dealt[h][k] == old_groups[h]@[k]);
                                }
                            }
                        }
                    }
                }
                lemma_partition_extend(dealt, i as nat, g as int);
                lemma_total_grows(sizes(old_groups), g as int);
                assert(sizes(groups@) =~= sizes(old_groups).update(
                    g as int,
                    sizes(old_groups)[g as int] + 1,
                )) by {
                    assert forall|h: int| 0 <= h < groups@.len() && h != g implies groups@[h]
                        == old_groups[h] by {}
                }
                if obeys_concrete_eq::<T>() {
                    lemma_group_extend(keys, i as nat, g as int);
                }
            }
        } else {
            let ghost old_groups = groups@;
            let mut members: Vec<usize> = Vec::new();
            members.push(i);
            groups.push(members);
            proof {
                assert forall|h: int, k: int|
                    0 <= h < groups@.len() && 0 <= k < groups@[h]@.len() implies (
                #[trigger] groups@[h]@[k]) < i + 1 by {
                    if h < old_groups.len() {
                        assert(groups@[h] == old_groups[h]);
                    }
                }
                let dealt = positions_view(old_groups);
                assert(positions_view(groups@) =~~= dealt.push(seq![i as int])) by {
                    assert forall|h: int| 0 <= h < groups@.len() implies positions_view(
                        groups@,
                    )[h] =~= dealt.push(seq![i as int])[h] by {
                        if h < old_groups.len() {
                            assert(groups@[h] == old_groups[h]);
                        }
                    }
                }
                lemma_partition_open(dealt, i as nat);
                assert(sizes(groups@).drop_last() =~= sizes(old_groups)) by {
                    assert forall|h: int| 0 <= h < old_groups.len() implies groups@[h]
                        == old_groups[h] by {}
                }
                if obeys_concrete_eq::<T>() {
                    lemma_group_open(keys, i as nat);
                }
            }
        }
        i = i + 1;
    }
    groups
}

/// `copy` has the length of `source`, and each of its items is a clone of
/// the item of `source` at the same place.
pub open spec fn is_copy_of<T: Clone>(source: Vec<T>, copy: Vec<T>) -> bool {
    &&& copy@.len() == source@.len()
    &&& forall|j: int| 0 <= j < source@.len() ==> cloned(#[trigger] source@[j], copy@[j])
}

/// `groups` is laid out as `positions` is, and holds at each place a copy of
/// the item of `array` at the position found there.
pub open spec fn holds_items_at<T: Clone>(
    groups: Seq<Vec<Vec<T>>>,
    array: Seq<Vec<T>>,
    positions: Seq<Seq<int>>,
) -> bool {
    &&& groups.len() == positions.len()
    &&& forall|g: int|
        0 <= g < groups.len() ==> (#[trigger] groups[g])@.len() == positions[g].len()
    &&& forall|g: int, k: int|
        0 <= g < groups.len() && 0 <= k < groups[g]@.len() ==> is_copy_of(
            array[positions[g][k]],
            #[trigger] groups[g]@[k],
        )
}

/// `groups` holds a copy of every item of `array`, once: the positions of
/// `array` can be dealt out to groups so that `groups` has, place for place,
/// a copy of the item at the position there. Within a group the items keep
/// the order of `array`, and no group is empty.
pub open spec fn holds_each_once<T: Clone>(groups: Seq<Vec<Vec<T>>>, array: Seq<Vec<T>>) -> bool {
    exists|layout: Seq<Seq<int>>| #[trigger]
        is_partition(layout, array.len()) && holds_items_at(groups, array, layout)
}

/// Takes an array of arrays and an index and groups the inner arrays by the
/// value at the index, compared with `==`.
///
/// Whatever `==` on `T` is, the groups hold a copy of every inner array,
/// once; within a group the arrays keep their order, and no group is empty.
/// Where `==` on `T` is plain equality, a group holds the arrays with one
/// value at the index, and the groups come in the order in which their values
/// first occur.
pub fn group_array_by_value_at_index<T: Clone + PartialEq>(array: &[Vec<T>], index: usize) -> (groups:
    Vec<Vec<Vec<T>>>)
    requires
        forall|i: int| 0 <= i < array@.len() ==> index < (#[trigger] array@[i])@.len(),
    ensures
        holds_each_once(groups@, array@),
        total(sizes(groups@)) == array@.len(),
        forall|g: int| 0 <= g < groups@.len() ==> (#[trigger] groups@[g])@.len() > 0,
        obeys_concrete_eq::<T>() ==> holds_items_at(
            groups@,
            array@,
            group_positions(keys_at(array@, index as int), array@.len()),
        ),
{
    let positions = group_indices(array, index);
    let ghost layout = positions_view(positions@);
    let mut groups: Vec<Vec<Vec<T>>> = Vec::new();
    let mut g: usize = 0;
    while g < positions.len()
        invariant
            g <= positions@.len(),
            layout == positions_view(positions@),
            forall|h: int| 0 <= h < positions@.len() ==> (#[trigger] positions@[h])@.len() > 0,
            forall|h: int, k: int|
                0 <= h < positions@.len() && 0 <= k < positions@[h]@.len() ==> (
                #[trigger] positions@[h]@[k]) < array@.len(),
            forall|h: int| 0 <= h < groups@.len() ==> (#[trigger] groups@[h])@.len() > 0,
            holds_items_at(groups@, array@, layout.take(g as int)),
        decreases positions@.len() - g,
    {
        let members = &positions[g];
        let mut group: Vec<Vec<T>> = Vec::new();
        let mut k: usize = 0;
        while k < members.len()
            invariant
                k <= members@.len(),
                g < positions@.len(),
                members == positions@[g as int],
                forall|m: int| 0 <= m < members@.len() ==> members@[m] < array@.len(),
                group@.len() == k,
                forall|m: int|
                    0 <= m < k ==> is_copy_of(array@[members@[m] as int], #[trigger] group@[m]),
            decreases members@.len() - k,
        {
            assert(positions@[g as int]@[k as int] < array@.len());
            let item = array[members[k]].clone();
            group.push(item);
            k = k + 1;
        }
        let ghost before = groups@;
        groups.push(group);
        proof {
            let wider = layout.take(g + 1);
            assert(wider[g as int] == layout[g as int]);
            assert forall|h: int| 0 <= h < groups@.len() implies (#[trigger] groups@[h])@.len()
                == wider[h].len() by {
                if h < g {
                    assert(groups@[h] == before[h]);
                    assert(wider[h] == layout.take(g as int)[h]);
                }
            }
            assert forall|h: int, m: int|
                0 <= h < groups@.len() && 0 <= m < groups@[h]@.len() implies is_copy_of(
                array@[wider[h][m]],
                #[trigger] groups@[h]@[m],
            ) by {
                if h < g {
                    assert(groups@[h] == before[h]);
                    assert(wider[h] == layout.take(g as int)[h]);
                }
            }
        }
        g = g + 1;
    }
    assert(layout.take(layout.len() as int) =~= layout);
    assert(is_partition(layout, array@.len()) && holds_items_at(groups@, array@, layout));
    assert(sizes(groups@) =~= sizes(positions@)) by {
        assert forall|h: int| 0 <= h < groups@.len() implies groups@[h]@.len()
            == positions@[h]@.len() by {
            assert(layout[h].len() == positions@[h]@.len());
        }
    }
    groups
}

} // verus!
