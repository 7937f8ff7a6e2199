//! Upgrades do not depend on the order in which merges were looked at.

use crate::amount::Amount;
use crate::upgrade::{
    group_mask, group_upgrades, insert_pos, key_less, key_of, keys_of, keys_sorted, lemma_keys_of,
    slot_of, slot_winner, upgrades_of, with_key, Accepted,
};
use vstd::prelude::*;

verus! {

/// No two different merges stand for one place of a super-block.
pub open spec fn one_per_place<A>(acc: Seq<Accepted<A>>) -> bool {
    forall|i: int, j: int|
        0 <= i < acc.len() && 0 <= j < acc.len() && key_of((#[trigger] acc[i]).site) == key_of(
            (#[trigger] acc[j]).site,
        ) && slot_of(acc[i].site) == slot_of(acc[j].site) ==> acc[i] == acc[j]
}

/// Two lists hold the same merges.
pub open spec fn same_merges<A>(a: Seq<Accepted<A>>, b: Seq<Accepted<A>>) -> bool {
    forall|e: Accepted<A>| #[trigger] a.contains(e) <==> b.contains(e)
}

proof fn lemma_winner_is_held<A>(acc: Seq<Accepted<A>>, n: int, key: (int, int), k: int)
    requires
        0 <= n <= acc.len(),
    ensures
        ({
            let r = slot_winner(acc, n, key, k);
            &&& r is Some ==> acc.contains(r->0) && key_of(r->0.site) == key && slot_of(r->0.site)
                == k
            &&& r is None ==> forall|i: int|
                0 <= i < n ==> !(key_of((#[trigger] acc[i]).site) == key && slot_of(acc[i].site)
                    == k)
        }),
    decreases n,
{
    if n > 0 {
        if !(key_of(acc[n - 1].site) == key && slot_of(acc[n - 1].site) == k) {
            lemma_winner_is_held(acc, n - 1, key, k);
        }
    }
}

proof fn lemma_same_winner<A>(
    a: Seq<Accepted<A>>,
    b: Seq<Accepted<A>>,
    key: (int, int),
    k: int,
)
    requires
        one_per_place(a),
        same_merges(a, b),
    ensures
        slot_winner(a, a.len() as int, key, k) == slot_winner(b, b.len() as int, key, k),
{
    lemma_winner_is_held(a, a.len() as int, key, k);
    lemma_winner_is_held(b, b.len() as int, key, k);
    let x = slot_winner(a, a.len() as int, key, k);
    let y = slot_winner(b, b.len() as int, key, k);
    if x is Some {
        assert(a.contains(x->0));
        assert(b.contains(x->0));
        let i = choose|i: int| 0 <= i < b.len() && b[i] == x->0;
        assert(key_of(b[i].site) == key && slot_of(b[i].site) == k);
    }
    if y is Some {
        assert(b.contains(y->0));
        assert(a.contains(y->0));
        let j = choose|j: int| 0 <= j < a.len() && a[j] == y->0;
        assert(key_of(a[j].site) == key && slot_of(a[j].site) == k);
        if x is Some {
            let i = choose|i: int| 0 <= i < a.len() && a[i] == x->0;
            assert(a[i] == a[j]);
        }
    }
}

/// Every ordered super-block comes from an accepted merge.
pub(crate) proof fn lemma_keys_come_from_merges<A>(acc: Seq<Accepted<A>>, n: int, key: (int, int))
    requires
        0 <= n <= acc.len(),
        keys_of(acc, n).contains(key),
    ensures
        exists|i: int| 0 <= i < n && key_of((#[trigger] acc[i]).site) == key,
    decreases n,
{
    if n > 0 {
        let before = keys_of(acc, n - 1);
        let added = key_of(acc[n - 1].site);
        if key == added {
            assert(key_of(acc[n - 1].site) == key);
        } else {
            let now = with_key(before, added);
            let at = insert_pos(before, added, before.len() as int);
            lemma_keys_of(acc, n - 1);
            lemma_insert_pos_range(before, added, before.len() as int);
            let p = choose|p: int| 0 <= p < now.len() && now[p] == key;
            if at < before.len() && before[at] == added {
                assert(before[p] == key);
            } else if p < at {
                assert(before[p] == key);
            } else {
                assert(before[p - 1] == key);
            }
            lemma_keys_come_from_merges(acc, n - 1, key);
            let i = choose|i: int| 0 <= i < n - 1 && key_of((#[trigger] acc[i]).site) == key;
            assert(key_of(acc[i].site) == key);
        }
    }
}

pub(crate) proof fn lemma_insert_pos_range(keys: Seq<(int, int)>, key: (int, int), n: int)
    requires
        0 <= n <= keys.len(),
    ensures
        0 <= insert_pos(keys, key, n) <= n,
    decreases n,
{
    if n > 0 && !key_less(keys[n - 1], key) {
        lemma_insert_pos_range(keys, key, n - 1);
    }
}

/// The super-block of every accepted merge is listed.
proof fn lemma_keys_hold_merges<A>(acc: Seq<Accepted<A>>, i: int)
    requires
        0 <= i < acc.len(),
    ensures
        keys_of(acc, acc.len() as int).contains(key_of(acc[i].site)),
{
    let key = key_of(acc[i].site);
    let k = slot_of(acc[i].site);
    lemma_keys_of(acc, acc.len() as int);
    lemma_winner_is_held(acc, acc.len() as int, key, k);
    assert(slot_winner(acc, acc.len() as int, key, k) is Some);
}

/// Two strictly ordered lists of the same super-blocks are equal.
proof fn lemma_sorted_lists_agree(a: Seq<(int, int)>, b: Seq<(int, int)>)
    requires
        keys_sorted(a),
        keys_sorted(b),
        forall|x: (int, int)| #[trigger] a.contains(x) <==> b.contains(x),
    ensures
        a == b,
    decreases a.len(),
{
    if a.len() == 0 {
        if b.len() > 0 {
            assert(b.contains(b[0]));
            assert(a.contains(b[0]));
        }
        assert(a =~= b);
    } else {
        assert(a.contains(a.last()));
        assert(b.contains(a.last()));
        let q = choose|q: int| 0 <= q < b.len() && b[q] == a.last();
        assert(b.contains(b.last()));
        assert(a.contains(b.last()));
        let p = choose|p: int| 0 <= p < a.len() && a[p] == b.last();
        if q < b.len() - 1 {
            assert(key_less(b[q], b[b.len() - 1]));
            if p < a.len() - 1 {
                assert(key_less(a[p], a[a.len() - 1]));
            }
            assert(false);
        }
        let ra = a.drop_last();
        let rb = b.drop_last();
        assert forall|x: (int, int)| #[trigger] ra.contains(x) implies rb.contains(x) by {
            let i = choose|i: int| 0 <= i < ra.len() && ra[i] == x;
            assert(a[i] == x);
            assert(a.contains(x));
            assert(b.contains(x));
            let j = choose|j: int| 0 <= j < b.len() && b[j] == x;
            assert(key_less(a[i], a[a.len() - 1]));
            assert(j < b.len() - 1);
            assert(rb[j] == x);
        }
        assert forall|x: (int, int)| rb.contains(x) implies #[trigger] ra.contains(x) by {
            let j = choose|j: int| 0 <= j < rb.len() && rb[j] == x;
            assert(b[j] == x);
            assert(b.contains(x));
            assert(a.contains(x));
            let i = choose|i: int| 0 <= i < a.len() && a[i] == x;
            assert(key_less(b[j], b[b.len() - 1]));
            assert(i < a.len() - 1);
            assert(ra[i] == x);
        }
        assert(keys_sorted(ra)) by {
            assert forall|i: int, j: int| 0 <= i < j < ra.len() implies key_less(
                #[trigger] ra[i],
                #[trigger] ra[j],
            ) by {
                assert(key_less(a[i], a[j]));
            }
        }
        assert(keys_sorted(rb)) by {
            assert forall|i: int, j: int| 0 <= i < j < rb.len() implies key_less(
                #[trigger] rb[i],
                #[trigger] rb[j],
            ) by {
                assert(key_less(b[i], b[j]));
            }
        }
        lemma_sorted_lists_agree(ra, rb);
        assert(a =~= ra.push(a.last()));
        assert(b =~= rb.push(b.last()));
    }
}

proof fn lemma_same_group<A: Amount>(
    a: Seq<Accepted<A>>,
    b: Seq<Accepted<A>>,
    key: (int, int),
    n: int,
)
    requires
        one_per_place(a),
        same_merges(a, b),
        n <= 5,
    ensures
        group_upgrades(a, key, n) == group_upgrades(b, key, n),
    decreases n,
{
    if n > 0 {
        lemma_same_group(a, b, key, n - 1);
        lemma_same_winner(a, b, key, 0);
        lemma_same_winner(a, b, key, 1);
        lemma_same_winner(a, b, key, 2);
        lemma_same_winner(a, b, key, 3);
        lemma_same_winner(a, b, key, 4);
        assert(group_mask(a, key) == group_mask(b, key));
    }
}

proof fn lemma_same_upgrades<A: Amount>(a: Seq<Accepted<A>>, b: Seq<Accepted<A>>, n: int)
    requires
        one_per_place(a),
        same_merges(a, b),
        keys_of(a, a.len() as int) == keys_of(b, b.len() as int),
    ensures
        upgrades_of(a, n) == upgrades_of(b, n),
    decreases n,
{
    if n > 0 {
        lemma_same_upgrades(a, b, n - 1);
        lemma_same_group(a, b, keys_of(a, a.len() as int)[n - 1], 5);
    }
}

/// Which merges are put down depends on the merges that gain, not on the order in
/// which they were looked at.
pub proof fn law_upgrades_do_not_depend_on_the_order<A: Amount>(
    a: Seq<Accepted<A>>,
    b: Seq<Accepted<A>>,
)
    requires
        one_per_place(a),
        same_merges(a, b),
    ensures
        upgrades_of(a, keys_of(a, a.len() as int).len() as int) == upgrades_of(
            b,
            keys_of(b, b.len() as int).len() as int,
        ),
{
    let ka = keys_of(a, a.len() as int);
    let kb = keys_of(b, b.len() as int);
    lemma_keys_of(a, a.len() as int);
    lemma_keys_of(b, b.len() as int);
    assert forall|x: (int, int)| #[trigger] ka.contains(x) implies kb.contains(x) by {
        lemma_keys_come_from_merges(a, a.len() as int, x);
        let i = choose|i: int| 0 <= i < a.len() && key_of((#[trigger] a[i]).site) == x;
        assert(a.contains(a[i]));
        assert(b.contains(a[i]));
        let j = choose|j: int| 0 <= j < b.len() && b[j] == a[i];
        lemma_keys_hold_merges(b, j);
    }
    assert forall|x: (int, int)| kb.contains(x) implies #[trigger] ka.contains(x) by {
        lemma_keys_come_from_merges(b, b.len() as int, x);
        let j = choose|j: int| 0 <= j < b.len() && key_of((#[trigger] b[j]).site) == x;
        assert(b.contains(b[j]));
        assert(a.contains(b[j]));
        let i = choose|i: int| 0 <= i < a.len() && a[i] == b[j];
        lemma_keys_hold_merges(a, i);
    }
    lemma_sorted_lists_agree(ka, kb);
    lemma_same_upgrades(a, b, ka.len() as int);
}

} // verus!
