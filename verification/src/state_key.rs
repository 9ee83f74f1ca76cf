//! Search states of DimDraw as plain keys (the rows of both tables, each
//! as an ascending list), and the table of costs seen per state.

use vstd::prelude::*;
use bit_set::BitSet;
use crate::bitset::{members, bs_to_vec};

verus! {

/// Lexicographic comparison of two lists: -1, 0 or 1, as `Vec`'s ordering.
pub open spec fn lex_sign(a: Seq<usize>, b: Seq<usize>) -> int
    decreases a.len(),
{
    if a.len() == 0 {
        if b.len() == 0 { 0 } else { -1 }
    } else if b.len() == 0 {
        1
    } else if a[0] < b[0] {
        -1
    } else if a[0] > b[0] {
        1
    } else {
        lex_sign(a.drop_first(), b.drop_first())
    }
}

/// Lexicographic comparison of two lists of lists, as `Vec<Vec<_>>`'s ordering.
pub open spec fn lex_sign2(a: Seq<Seq<usize>>, b: Seq<Seq<usize>>) -> int
    decreases a.len(),
{
    if a.len() == 0 {
        if b.len() == 0 { 0 } else { -1 }
    } else if b.len() == 0 {
        1
    } else if lex_sign(a[0], b[0]) != 0 {
        lex_sign(a[0], b[0])
    } else {
        lex_sign2(a.drop_first(), b.drop_first())
    }
}

proof fn lemma_lex_sign_zero(a: Seq<usize>, b: Seq<usize>)
    ensures
        (lex_sign(a, b) == 0) == (a == b),
        -1 <= lex_sign(a, b) <= 1,
    decreases a.len(),
{
    if a.len() > 0 && b.len() > 0 {
        lemma_lex_sign_zero(a.drop_first(), b.drop_first());
        if a[0] == b[0] && a.drop_first() == b.drop_first() {
            assert(a =~= b) by {
                assert forall|i: int| 0 <= i < a.len() implies a[i] == b[i] by {
                    if i > 0 {
                        assert(a[i] == a.drop_first()[i - 1]);
                    }
                }
            }
        }
        if a == b {
            assert(a.drop_first() =~= b.drop_first());
        }
    } else if a.len() == 0 && b.len() == 0 {
        assert(a =~= b);
    }
}

proof fn lemma_lex_sign2_zero(a: Seq<Seq<usize>>, b: Seq<Seq<usize>>)
    ensures
        (lex_sign2(a, b) == 0) == (a == b),
    decreases a.len(),
{
    if a.len() > 0 && b.len() > 0 {
        lemma_lex_sign_zero(a[0], b[0]);
        lemma_lex_sign2_zero(a.drop_first(), b.drop_first());
        if a[0] == b[0] && a.drop_first() == b.drop_first() {
            assert(a =~= b) by {
                assert forall|i: int| 0 <= i < a.len() implies a[i] == b[i] by {
                    if i > 0 {
                        assert(a[i] == a.drop_first()[i - 1]);
                    }
                }
            }
        }
        if a == b {
            assert(a.drop_first() =~= b.drop_first());
        }
    } else if a.len() == 0 && b.len() == 0 {
        assert(a =~= b);
    }
}

/// Compares two lists lexicographically.
fn compare_lists(a: &Vec<usize>, b: &Vec<usize>) -> (r: i8)
    ensures
        r as int == lex_sign(a@, b@),
{
    let mut i: usize = 0;
    proof {
        assert(a@.skip(0) =~= a@);
        assert(b@.skip(0) =~= b@);
    }
    while i < a.len() && i < b.len() && a[i] == b[i]
        invariant
            i <= a@.len(),
            i <= b@.len(),
            lex_sign(a@, b@) == lex_sign(a@.skip(i as int), b@.skip(i as int)),
        decreases a@.len() - i,
    {
        proof {
            assert(a@.skip(i as int).drop_first() =~= a@.skip(i + 1));
            assert(b@.skip(i as int).drop_first() =~= b@.skip(i + 1));
        }
        i = i + 1;
    }
    if i == a.len() {
        if i == b.len() { 0 } else { -1 }
    } else if i == b.len() {
        1
    } else if a[i] < b[i] {
        -1
    } else {
        1
    }
}

/// Compares two lists of lists lexicographically.
fn compare_keys(a: &Vec<Vec<usize>>, b: &Vec<Vec<usize>>) -> (r: i8)
    ensures
        r as int == lex_sign2(deep(a@), deep(b@)),
{
    let mut i: usize = 0;
    proof {
        assert(deep(a@).skip(0) =~= deep(a@));
        assert(deep(b@).skip(0) =~= deep(b@));
    }
    loop
        invariant
            i <= a@.len(),
            i <= b@.len(),
            lex_sign2(deep(a@), deep(b@)) == lex_sign2(deep(a@).skip(i as int), deep(b@).skip(i as int)),
        decreases a@.len() - i,
    {
        if i == a.len() {
            proof {
                assert(deep(a@).skip(i as int).len() == 0);
            }
            return if i == b.len() { 0 } else { -1 };
        }
        if i == b.len() {
            return 1;
        }
        let c = compare_lists(&a[i], &b[i]);
        proof {
            assert(deep(a@).skip(i as int)[0] == a@[i as int]@);
            assert(deep(b@).skip(i as int)[0] == b@[i as int]@);
        }
        if c != 0 {
            return c;
        }
        proof {
            assert(deep(a@).skip(i as int).drop_first() =~= deep(a@).skip(i + 1));
            assert(deep(b@).skip(i as int).drop_first() =~= deep(b@).skip(i + 1));
        }
        i = i + 1;
    }
}

/// The plain view of a list of lists.
pub open spec fn deep(a: Seq<Vec<usize>>) -> Seq<Seq<usize>> {
    Seq::new(a.len(), |i: int| a[i]@)
}

/// A state key: two lists of rows.
pub type StateKey = (Vec<Vec<usize>>, Vec<Vec<usize>>);

/// The plain view of a state key.
pub open spec fn key_view(k: StateKey) -> (Seq<Seq<usize>>, Seq<Seq<usize>>) {
    (deep(k.0@), deep(k.1@))
}

/// `l` lists the members of `s` in ascending order.
pub open spec fn lists_ascending(l: Seq<usize>, s: Set<usize>) -> bool {
    &&& forall|i: int, j: int| 0 <= i < j < l.len() ==> l[i] < l[j]
    &&& forall|x: usize| l.contains(x) <==> s.contains(x)
}

/// The rows of a table, each as an ascending list.
pub fn tc_to_key(tc: &Vec<BitSet>) -> (r: Vec<Vec<usize>>)
    ensures
        r@.len() == tc@.len(),
        forall|i: int| 0 <= i < r@.len() ==> lists_ascending(#[trigger] r@[i]@, members(tc@[i])),
{
    let mut r: Vec<Vec<usize>> = Vec::new();
    let mut i: usize = 0;
    while i < tc.len()
        invariant
            i <= tc@.len(),
            r@.len() == i,
            forall|k: int| 0 <= k < i ==> lists_ascending(#[trigger] r@[k]@, members(tc@[k])),
        decreases tc@.len() - i,
    {
        r.push(bs_to_vec(&tc[i]));
        i = i + 1;
    }
    r
}

/// Two row lists, the lexicographically smaller first.
pub open spec fn ordered_pair(k1: Seq<Seq<usize>>, k2: Seq<Seq<usize>>) -> (Seq<Seq<usize>>, Seq<Seq<usize>>) {
    if lex_sign2(k1, k2) <= 0 { (k1, k2) } else { (k2, k1) }
}

/// Comparing the other way round flips the sign.
proof fn lemma_lex_sign_flip(a: Seq<usize>, b: Seq<usize>)
    ensures
        lex_sign(a, b) == -lex_sign(b, a),
    decreases a.len(),
{
    if a.len() > 0 && b.len() > 0 {
        lemma_lex_sign_flip(a.drop_first(), b.drop_first());
    }
}

/// Comparing the other way round flips the sign.
proof fn lemma_lex_sign2_flip(a: Seq<Seq<usize>>, b: Seq<Seq<usize>>)
    ensures
        lex_sign2(a, b) == -lex_sign2(b, a),
    decreases a.len(),
{
    if a.len() > 0 && b.len() > 0 {
        lemma_lex_sign_flip(a[0], b[0]);
        lemma_lex_sign2_flip(a.drop_first(), b.drop_first());
    }
}

/// Swapping the two tables gives the same key.
pub proof fn lemma_key_symmetric(k1: Seq<Seq<usize>>, k2: Seq<Seq<usize>>)
    ensures
        ordered_pair(k1, k2) == ordered_pair(k2, k1),
{
    lemma_lex_sign2_flip(k1, k2);
    lemma_lex_sign2_zero(k1, k2);
}

/// The key of a pair of tables: both row lists, the lexicographically
/// smaller first, so that swapping the two tables gives the same key.
pub fn canonical_state_key(tc1: &Vec<BitSet>, tc2: &Vec<BitSet>) -> (r: StateKey)
    ensures
        r.0@.len() == tc1@.len() || r.0@.len() == tc2@.len(),
        exists|k1: Vec<Vec<usize>>, k2: Vec<Vec<usize>>| {
            &&& k1@.len() == tc1@.len()
            &&& k2@.len() == tc2@.len()
            &&& (forall|i: int| 0 <= i < k1@.len() ==> lists_ascending(#[trigger] k1@[i]@, members(tc1@[i])))
            &&& (forall|i: int| 0 <= i < k2@.len() ==> lists_ascending(#[trigger] k2@[i]@, members(tc2@[i])))
            &&& key_view(r) == ordered_pair(deep(k1@), deep(k2@))
        },
{
    let k1 = tc_to_key(tc1);
    let k2 = tc_to_key(tc2);
    let c = compare_keys(&k1, &k2);
    let ghost g1 = k1;
    let ghost g2 = k2;
    let r = if c <= 0 { (k1, k2) } else { (k2, k1) };
    proof {
        assert(key_view(r) == ordered_pair(deep(g1@), deep(g2@)));
    }
    r
}

/// The costs recorded per state key, as a map.
pub open spec fn memo_map(memo: Seq<(StateKey, u64)>) -> Map<(Seq<Seq<usize>>, Seq<Seq<usize>>), u64>
    decreases memo.len(),
{
    if memo.len() == 0 {
        Map::empty()
    } else {
        memo_map(memo.drop_last()).insert(key_view(memo.last().0), memo.last().1)
    }
}

/// Compares two state keys for equality.
fn same_key(a: &StateKey, b: &StateKey) -> (r: bool)
    ensures
        r == (key_view(*a) == key_view(*b)),
{
    let c0 = compare_keys(&a.0, &b.0);
    let c1 = compare_keys(&a.1, &b.1);
    proof {
        lemma_lex_sign2_zero(deep(a.0@), deep(b.0@));
        lemma_lex_sign2_zero(deep(a.1@), deep(b.1@));
    }
    c0 == 0 && c1 == 0
}

/// The cost recorded for `key`, if any.
pub fn memo_get(memo: &Vec<(StateKey, u64)>, key: &StateKey) -> (r: Option<u64>)
    ensures
        r == if memo_map(memo@).contains_key(key_view(*key)) { Some(memo_map(memo@)[key_view(*key)]) } else { None::<u64> },
{
    let mut i = memo.len();
    proof {
        assert(memo@.subrange(0, memo@.len() as int) =~= memo@);
    }
    while i > 0
        invariant
            i <= memo@.len(),
            forall|j: int| i <= j < memo@.len() ==> key_view((#[trigger] memo@[j]).0) != key_view(*key),
            memo_map(memo@).contains_key(key_view(*key)) == memo_map(memo@.subrange(0, i as int)).contains_key(key_view(*key)),
            memo_map(memo@).contains_key(key_view(*key)) ==> memo_map(memo@)[key_view(*key)] == memo_map(memo@.subrange(0, i as int))[key_view(*key)],
        decreases i,
    {
        i = i - 1;
        let ghost pre = memo@.subrange(0, i as int + 1);
        proof {
            assert(pre.drop_last() =~= memo@.subrange(0, i as int));
            assert(pre.last() == memo@[i as int]);
        }
        if same_key(&memo[i].0, key) {
            return Some(memo[i].1);
        }
        proof {
            assert(memo_map(pre) == memo_map(memo@.subrange(0, i as int)).insert(key_view(memo@[i as int].0), memo@[i as int].1));
        }
    }
    proof {
        assert(memo@.subrange(0, 0) =~= Seq::<(StateKey, u64)>::empty());
    }
    None
}

/// Records `cost` for `key`.
pub fn memo_insert(memo: &mut Vec<(StateKey, u64)>, key: StateKey, cost: u64)
    ensures
        memo_map(final(memo)@) == memo_map(old(memo)@).insert(key_view(key), cost),
{
    let ghost k = key_view(key);
    memo.push((key, cost));
    proof {
        assert(final(memo)@.drop_last() =~= old(memo)@);
    }
}

} // verus!
