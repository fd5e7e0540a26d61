//! Merging of candidate swaps found through different triggers: candidates
//! with the same pool sequence and input amount are one swap, kept with the
//! highest profit seen.
use vstd::prelude::*;

use crate::pool::{address_cmp, lemma_lex_cmp_total_order, lex_cmp};
use crate::primitives::{lemma_address_eq, word_lt, Address, Word};

verus! {

/// A candidate swap: the pools it goes through, its input amount and the
/// profit the search expects.
#[derive(Debug)]
pub struct SwapCandidate {
    pub pools: Vec<Address>,
    pub amount_in: Word,
    pub profit: Word,
}

/// What makes two candidates the same swap.
pub open spec fn key_of(c: SwapCandidate) -> (Seq<Address>, Word) {
    (c.pools@, c.amount_in)
}

/// The highest profit per swap among the candidates.
pub open spec fn best(s: Seq<SwapCandidate>) -> Map<(Seq<Address>, Word), nat>
    decreases s.len(),
{
    if s.len() == 0 {
        Map::empty()
    } else {
        let m = best(s.drop_last());
        let k = key_of(s.last());
        let p = s.last().profit.value();
        m.insert(
            k,
            if m.contains_key(k) && m[k] >= p {
                m[k]
            } else {
                p
            },
        )
    }
}

/// `best` holds each swap of the candidates, with the largest of their
/// profits, attained by one of them.
pub proof fn lemma_best_is_max(s: Seq<SwapCandidate>)
    ensures
        forall|k: (Seq<Address>, Word)|
            best(s).contains_key(k) <==> exists|i: int| 0 <= i < s.len() && key_of(s[i]) == k,
        forall|i: int| 0 <= i < s.len() ==> best(s)[key_of(s[i])] >= (#[trigger] s[i]).profit.value(),
        forall|k: (Seq<Address>, Word)|
            best(s).contains_key(k) ==> exists|i: int|
                0 <= i < s.len() && key_of(s[i]) == k && s[i].profit.value() == best(s)[k],
    decreases s.len(),
{
    if s.len() > 0 {
        let t = s.drop_last();
        lemma_best_is_max(t);
        let n = s.len() - 1;
        assert forall|k: (Seq<Address>, Word)|
            best(s).contains_key(k) <==> exists|i: int| 0 <= i < s.len() && key_of(s[i]) == k by {
            if best(t).contains_key(k) {
                let i = choose|i: int| 0 <= i < t.len() && key_of(t[i]) == k;
                assert(key_of(s[i]) == k);
            }
            if exists|i: int| 0 <= i < s.len() && key_of(s[i]) == k {
                let i = choose|i: int| 0 <= i < s.len() && key_of(s[i]) == k;
                if i < n {
                    assert(key_of(t[i]) == k);
                }
            }
        }
        assert forall|i: int| 0 <= i < s.len() implies best(s)[key_of(s[i])] >= (#[trigger] s[i]).profit.value() by {
            if i < n {
                assert(t[i] == s[i]);
                assert(best(t)[key_of(t[i])] >= t[i].profit.value());
            }
        }
        assert forall|k: (Seq<Address>, Word)| best(s).contains_key(k) implies exists|i: int|
            0 <= i < s.len() && key_of(s[i]) == k && s[i].profit.value() == best(s)[k] by {
            if k == key_of(s[n]) && best(s)[k] == s[n].profit.value() {
                assert(key_of(s[n]) == k);
            } else {
                let i = choose|i: int| 0 <= i < t.len() && key_of(t[i]) == k && t[i].profit.value() == best(t)[k];
                assert(s[i] == t[i]);
            }
        }
    }
}

/// The merged result depends only on which candidates came in, with their
/// multiplicities, not on the order in which they arrived.
pub proof fn lemma_merge_order_independent(s1: Seq<SwapCandidate>, s2: Seq<SwapCandidate>)
    requires
        s1.to_multiset() == s2.to_multiset(),
    ensures
        best(s1) == best(s2),
{
    lemma_best_is_max(s1);
    lemma_best_is_max(s2);
    s1.to_multiset_ensures();
    s2.to_multiset_ensures();
    assert forall|c: SwapCandidate| s1.contains(c) <==> s2.contains(c) by {
        assert(s1.contains(c) <==> s1.to_multiset().count(c) > 0);
        assert(s2.contains(c) <==> s2.to_multiset().count(c) > 0);
    }
    assert forall|k: (Seq<Address>, Word)| best(s1).contains_key(k) implies best(s2).contains_key(k) && best(s1)[k]
        == best(s2)[k] by {
        let i = choose|i: int| 0 <= i < s1.len() && key_of(s1[i]) == k && s1[i].profit.value() == best(s1)[k];
        assert(s1.contains(s1[i]));
        let j = choose|j: int| 0 <= j < s2.len() && s2[j] == s1[i];
        assert(key_of(s2[j]) == k);
        assert(best(s2).contains_key(k));
        assert(best(s2)[key_of(s2[j])] >= s2[j].profit.value());
        let j2 = choose|j: int| 0 <= j < s2.len() && key_of(s2[j]) == k && s2[j].profit.value() == best(s2)[k];
        assert(s2.contains(s2[j2]));
        let i2 = choose|i: int| 0 <= i < s1.len() && s1[i] == s2[j2];
        assert(best(s1)[key_of(s1[i2])] >= s1[i2].profit.value());
    }
    assert forall|k: (Seq<Address>, Word)| best(s2).contains_key(k) implies best(s1).contains_key(k) by {
        let j = choose|j: int| 0 <= j < s2.len() && key_of(s2[j]) == k;
        assert(s2.contains(s2[j]));
        let i = choose|i: int| 0 <= i < s1.len() && s1[i] == s2[j];
    }
    assert(best(s1) =~= best(s2));
}

/// Address `a` sorts before `b`: as unsigned big-endian numbers.
pub open spec fn addr_before(a: Address, b: Address) -> bool {
    lex_cmp(a@, b@) == core::cmp::Ordering::Less
}

/// Pool sequence `p` sorts before `q`: lexicographically by address, a
/// proper prefix first.
pub open spec fn pools_before(p: Seq<Address>, q: Seq<Address>) -> bool
    decreases p.len(),
{
    if p.len() == 0 {
        q.len() > 0
    } else if q.len() == 0 {
        false
    } else if p[0] == q[0] {
        pools_before(p.drop_first(), q.drop_first())
    } else {
        addr_before(p[0], q[0])
    }
}

/// Amount `a` sorts before `b`: by limbs, most significant first.
pub open spec fn amount_before(a: Word, b: Word) -> bool {
    ||| a.l3 < b.l3
    ||| a.l3 == b.l3 && a.l2 < b.l2
    ||| a.l3 == b.l3 && a.l2 == b.l2 && a.l1 < b.l1
    ||| a.l3 == b.l3 && a.l2 == b.l2 && a.l1 == b.l1 && a.l0 < b.l0
}

/// Swap `a` sorts before `b`: by pools, then by amount.
pub open spec fn key_before(a: (Seq<Address>, Word), b: (Seq<Address>, Word)) -> bool {
    pools_before(a.0, b.0) || (a.0 == b.0 && amount_before(a.1, b.1))
}

/// The candidates are in strictly increasing order of swap.
pub open spec fn sorted_by_key(s: Seq<SwapCandidate>) -> bool {
    forall|i: int, j: int| 0 <= i < j < s.len() ==> key_before(key_of(s[i]), key_of(s[j]))
}

proof fn lemma_addr_order(a: Address, b: Address, c: Address)
    ensures
        !addr_before(a, a),
        a != b ==> (addr_before(a, b) || addr_before(b, a)),
        addr_before(a, b) && addr_before(b, c) ==> addr_before(a, c),
{
    crate::primitives::lemma_address_eq(a, b);
    lemma_lex_cmp_total_order(a@, b@, c@);
    lemma_lex_cmp_total_order(b@, a@, c@);
    lemma_lex_cmp_total_order(a@, a@, a@);
}

/// The order on pool sequences is a strict total order.
proof fn lemma_pools_order(p: Seq<Address>, q: Seq<Address>, r: Seq<Address>)
    ensures
        !pools_before(p, p),
        p != q ==> (pools_before(p, q) || pools_before(q, p)),
        pools_before(p, q) && pools_before(q, r) ==> pools_before(p, r),
    decreases p.len(),
{
    if p.len() > 0 && q.len() > 0 && r.len() > 0 {
        lemma_pools_order(p.drop_first(), q.drop_first(), r.drop_first());
        lemma_addr_order(p[0], q[0], r[0]);
        if p[0] == q[0] && p.drop_first() == q.drop_first() {
            assert forall|i: int| 0 <= i < p.len() implies p[i] == q[i] by {
                if i > 0 {
                    assert(p[i] == p.drop_first()[i - 1]);
                    assert(q[i] == q.drop_first()[i - 1]);
                }
            }
            assert(p =~= q);
        }
    } else if p.len() > 0 && q.len() > 0 {
        lemma_pools_order(p.drop_first(), q.drop_first(), q.drop_first());
        lemma_addr_order(p[0], q[0], q[0]);
        if p[0] == q[0] && p.drop_first() == q.drop_first() {
            assert forall|i: int| 0 <= i < p.len() implies p[i] == q[i] by {
                if i > 0 {
                    assert(p[i] == p.drop_first()[i - 1]);
                    assert(q[i] == q.drop_first()[i - 1]);
                }
            }
            assert(p =~= q);
        }
    } else if p.len() > 0 {
        lemma_pools_order(p.drop_first(), p.drop_first(), p.drop_first());
        lemma_addr_order(p[0], p[0], p[0]);
    } else if q.len() == 0 {
        assert(p =~= q);
    }
}

/// The order on swaps is a strict total order.
pub proof fn lemma_key_order(a: (Seq<Address>, Word), b: (Seq<Address>, Word), c: (Seq<Address>, Word))
    ensures
        !key_before(a, a),
        a != b ==> (key_before(a, b) || key_before(b, a)),
        key_before(a, b) && key_before(b, c) ==> key_before(a, c),
{
    lemma_pools_order(a.0, b.0, c.0);
    lemma_pools_order(b.0, a.0, c.0);
    lemma_pools_order(a.0, c.0, b.0);
    lemma_pools_order(c.0, a.0, b.0);
    lemma_pools_order(b.0, c.0, a.0);
}

/// Compares two pool sequences in swap order.
fn pools_cmp(p: &Vec<Address>, q: &Vec<Address>) -> (r: core::cmp::Ordering)
    ensures
        (r == core::cmp::Ordering::Less) == pools_before(p@, q@),
        (r == core::cmp::Ordering::Equal) == (p@ == q@),
{
    let mut i: usize = 0;
    proof {
        assert(p@.skip(0) =~= p@);
        assert(q@.skip(0) =~= q@);
        assert(p@.take(0) =~= q@.take(0));
    }
    while i < p.len() && i < q.len()
        invariant
            0 <= i <= p@.len(),
            i <= q@.len(),
            p@.take(i as int) == q@.take(i as int),
            pools_before(p@, q@) == pools_before(p@.skip(i as int), q@.skip(i as int)),
        decreases p@.len() - i,
    {
        let c = address_cmp(&p[i], &q[i]);
        proof {
            lemma_lex_cmp_total_order(p@[i as int]@, q@[i as int]@, q@[i as int]@);
            lemma_address_eq(p@[i as int], q@[i as int]);
            assert(p@.skip(i as int)[0] == p@[i as int]);
            assert(q@.skip(i as int)[0] == q@[i as int]);
            assert(p@.skip(i as int).drop_first() =~= p@.skip(i as int + 1));
            assert(q@.skip(i as int).drop_first() =~= q@.skip(i as int + 1));
        }
        if let core::cmp::Ordering::Less = c {
            proof {
                assert(p@ != q@) by {
                    if p@ == q@ {
                        assert(p@[i as int] == q@[i as int]);
                    }
                }
            }
            return core::cmp::Ordering::Less;
        } else if let core::cmp::Ordering::Greater = c {
            proof {
                assert(p@[i as int] != q@[i as int]);
                assert(p@ != q@) by {
                    if p@ == q@ {
                        assert(p@[i as int] == q@[i as int]);
                    }
                }
            }
            return core::cmp::Ordering::Greater;
        }
        proof {
            assert(p@.take(i as int + 1) =~= p@.take(i as int).push(p@[i as int]));
            assert(q@.take(i as int + 1) =~= q@.take(i as int).push(q@[i as int]));
        }
        i = i + 1;
    }
    proof {
        if i == p@.len() {
            assert(p@.take(i as int) =~= p@);
        }
        if i == q@.len() {
            assert(q@.take(i as int) =~= q@);
        }
    }
    if p.len() == q.len() {
        proof {
            assert(p@ =~= q@);
            lemma_pools_order(p@.skip(i as int), p@.skip(i as int), p@.skip(i as int));
        }
        core::cmp::Ordering::Equal
    } else if p.len() < q.len() {
        proof {
            assert(p@ != q@);
        }
        core::cmp::Ordering::Less
    } else {
        proof {
            assert(p@ != q@);
        }
        core::cmp::Ordering::Greater
    }
}

/// Compares two amounts in swap order.
fn amount_cmp(a: &Word, b: &Word) -> (r: core::cmp::Ordering)
    ensures
        (r == core::cmp::Ordering::Less) == amount_before(*a, *b),
        (r == core::cmp::Ordering::Equal) == (*a == *b),
{
    if a.l3 != b.l3 {
        if a.l3 < b.l3 { core::cmp::Ordering::Less } else { core::cmp::Ordering::Greater }
    } else if a.l2 != b.l2 {
        if a.l2 < b.l2 { core::cmp::Ordering::Less } else { core::cmp::Ordering::Greater }
    } else if a.l1 != b.l1 {
        if a.l1 < b.l1 { core::cmp::Ordering::Less } else { core::cmp::Ordering::Greater }
    } else if a.l0 != b.l0 {
        if a.l0 < b.l0 { core::cmp::Ordering::Less } else { core::cmp::Ordering::Greater }
    } else {
        core::cmp::Ordering::Equal
    }
}

/// Compares the swaps of two candidates.
fn key_cmp(a: &SwapCandidate, b: &SwapCandidate) -> (r: core::cmp::Ordering)
    ensures
        (r == core::cmp::Ordering::Less) == key_before(key_of(*a), key_of(*b)),
        (r == core::cmp::Ordering::Equal) == (key_of(*a) == key_of(*b)),
{
    let c = pools_cmp(&a.pools, &b.pools);
    if let core::cmp::Ordering::Equal = c {
        amount_cmp(&a.amount_in, &b.amount_in)
    } else {
        proof {
            lemma_pools_order(a.pools@, b.pools@, b.pools@);
        }
        c
    }
}

fn same_pools(a: &Vec<Address>, b: &Vec<Address>) -> (r: bool)
    ensures
        r == (a@ == b@),
{
    if a.len() != b.len() {
        return false;
    }
    let mut i: usize = 0;
    while i < a.len()
        invariant
            0 <= i <= a@.len(),
            a@.len() == b@.len(),
            forall|j: int| 0 <= j < i ==> a@[j] == b@[j],
        decreases a@.len() - i,
    {
        proof {
            lemma_address_eq(a@[i as int], b@[i as int]);
        }
        if a[i] != b[i] {
            return false;
        }
        i = i + 1;
    }
    proof {
        assert(a@ =~= b@);
    }
    true
}

fn copy_pools(a: &Vec<Address>) -> (r: Vec<Address>)
    ensures
        r@ == a@,
{
    let mut r: Vec<Address> = Vec::new();
    let mut i: usize = 0;
    while i < a.len()
        invariant
            0 <= i <= a@.len(),
            r@ == a@.take(i as int),
        decreases a@.len() - i,
    {
        r.push(a[i]);
        proof {
            assert(a@.take(i as int + 1) =~= a@.take(i as int).push(a@[i as int]));
        }
        i = i + 1;
    }
    proof {
        assert(a@.take(a@.len() as int) =~= a@);
    }
    r
}

/// Each swap occurs once.
pub open spec fn keys_unique(s: Seq<SwapCandidate>) -> bool {
    forall|i: int, j: int| 0 <= i < s.len() && 0 <= j < s.len() && i != j ==> key_of(s[i]) != key_of(s[j])
}

/// Strictly sorted candidates name each swap once.
proof fn lemma_sorted_keys_unique(s: Seq<SwapCandidate>)
    requires
        sorted_by_key(s),
    ensures
        keys_unique(s),
{
    assert forall|i: int, j: int| 0 <= i < s.len() && 0 <= j < s.len() && i != j implies key_of(s[i]) != key_of(
        s[j],
    ) by {
        lemma_key_order(key_of(s[i]), key_of(s[j]), key_of(s[j]));
        lemma_key_order(key_of(s[j]), key_of(s[i]), key_of(s[i]));
    }
}

/// Merges candidates: each swap once, with the highest profit among the
/// candidates for it, in increasing order of swap (pools, then amount).
pub fn merge_candidates(candidates: &Vec<SwapCandidate>) -> (r: Vec<SwapCandidate>)
    ensures
        sorted_by_key(r@),
        keys_unique(r@),
        best(r@) == best(candidates@),
{
    let mut r: Vec<SwapCandidate> = Vec::new();
    let mut i: usize = 0;
    while i < candidates.len()
        invariant
            0 <= i <= candidates@.len(),
            sorted_by_key(r@),
            best(r@) == best(candidates@.take(i as int)),
        decreases candidates@.len() - i,
    {
        let c = &candidates[i];
        let ghost t1 = candidates@.take(i as int + 1);
        proof {
            assert(t1.drop_last() =~= candidates@.take(i as int));
            assert(t1.last() == *c);
            lemma_sorted_keys_unique(r@);
            lemma_best_is_max(r@);
        }
        let mut p: usize = 0;
        loop
            invariant
                0 <= p <= r@.len(),
                forall|q: int| 0 <= q < p ==> key_before(key_of(#[trigger] r@[q]), key_of(*c)),
            ensures
                0 <= p <= r@.len(),
                forall|q: int| 0 <= q < p ==> key_before(key_of(#[trigger] r@[q]), key_of(*c)),
                p < r@.len() ==> !key_before(key_of(r@[p as int]), key_of(*c)),
            decreases r@.len() - p,
        {
            if p == r.len() {
                break;
            }
            match key_cmp(&r[p], c) {
                core::cmp::Ordering::Less => {
                    p = p + 1;
                },
                _ => {
                    break;
                },
            }
        }
        let found = if p < r.len() {
            match key_cmp(&r[p], c) {
                core::cmp::Ordering::Equal => true,
                _ => false,
            }
        } else {
            false
        };
        if found {
            if word_lt(&r[p].profit, &c.profit) {
                let ghost r0 = r@;
                let entry = SwapCandidate { pools: copy_pools(&c.pools), amount_in: c.amount_in, profit: c.profit };
                r.set(p, entry);
                proof {
                    lemma_best_replace(r0, p as int, entry);
                    assert forall|x: int, y: int| 0 <= x < y < r@.len() implies key_before(
                        key_of(r@[x]),
                        key_of(r@[y]),
                    ) by {
                        assert(key_of(r@[x]) == key_of(r0[x]));
                        assert(key_of(r@[y]) == key_of(r0[y]));
                    }
                }
            }
        } else {
            let ghost r0 = r@;
            let entry = SwapCandidate { pools: copy_pools(&c.pools), amount_in: c.amount_in, profit: c.profit };
            proof {
                assert(key_of(entry) == key_of(*c));
                assert(!best(r0).contains_key(key_of(*c))) by {
                    if best(r0).contains_key(key_of(*c)) {
                        let q = choose|q: int| 0 <= q < r0.len() && key_of(r0[q]) == key_of(*c);
                        lemma_key_order(key_of(*c), key_of(*c), key_of(*c));
                        if q > p {
                            assert(key_before(key_of(r0[p as int]), key_of(r0[q])));
                        }
                    }
                }
                if p < r0.len() {
                    lemma_key_order(key_of(r0[p as int]), key_of(*c), key_of(*c));
                    assert(key_before(key_of(*c), key_of(r0[p as int])));
                }
            }
            r.insert(p, entry);
            proof {
                let r1 = r@;
                assert(r1 =~= r0.insert(p as int, entry));
                assert forall|x: int, y: int| 0 <= x < y < r1.len() implies key_before(
                    key_of(r1[x]),
                    key_of(r1[y]),
                ) by {
                    if y < p {
                    } else if y == p {
                        assert(r1[x] == r0[x]);
                    } else if x < p {
                        assert(r1[x] == r0[x]);
                        assert(r1[y] == r0[y - 1]);
                        lemma_key_order(key_of(r0[x]), key_of(*c), key_of(r0[y - 1]));
                        if y - 1 > p {
                            lemma_key_order(key_of(*c), key_of(r0[p as int]), key_of(r0[y - 1]));
                        }
                    } else if x == p {
                        assert(r1[y] == r0[y - 1]);
                        if y - 1 > p {
                            lemma_key_order(key_of(*c), key_of(r0[p as int]), key_of(r0[y - 1]));
                        }
                    } else {
                        assert(r1[x] == r0[x - 1]);
                        assert(r1[y] == r0[y - 1]);
                    }
                }
                broadcast use vstd::seq_lib::group_to_multiset_ensures;
                assert(r1.to_multiset() == r0.push(entry).to_multiset());
                lemma_merge_order_independent(r1, r0.push(entry));
                assert(r0.push(entry).drop_last() =~= r0);
                assert(best(r0.push(entry)) == best(r0).insert(key_of(*c), c.profit.value()));
            }
        }
        proof {
            lemma_sorted_keys_unique(r@);
            lemma_best_is_max(r@);
            assert(best(r@) =~= best(t1));
        }
        i = i + 1;
    }
    proof {
        assert(candidates@.take(candidates@.len() as int) =~= candidates@);
        lemma_sorted_keys_unique(r@);
    }
    r
}

/// Replacing the one candidate for a swap by one with a higher profit
/// raises that swap's best profit to it.
proof fn lemma_best_replace(s: Seq<SwapCandidate>, j: int, c: SwapCandidate)
    requires
        keys_unique(s),
        0 <= j < s.len(),
        key_of(s[j]) == key_of(c),
    ensures
        keys_unique(s.update(j, c)),
        best(s.update(j, c)) == best(s).insert(key_of(c), c.profit.value()),
    decreases s.len(),
{
    let t = s.update(j, c);
    assert forall|a: int, b: int| 0 <= a < t.len() && 0 <= b < t.len() && a != b implies key_of(t[a]) != key_of(
        t[b],
    ) by {
        assert(key_of(s[a]) != key_of(s[b]));
    }
    lemma_best_is_max(s.drop_last());
    if j == s.len() - 1 {
        assert(t.drop_last() =~= s.drop_last());
        assert(!best(s.drop_last()).contains_key(key_of(c))) by {
            if best(s.drop_last()).contains_key(key_of(c)) {
                let q = choose|q: int| 0 <= q < s.drop_last().len() && key_of(s.drop_last()[q]) == key_of(c);
                assert(key_of(s[q]) != key_of(s[j]));
            }
        }
        assert(best(t) =~= best(s).insert(key_of(c), c.profit.value()));
    } else {
        assert(keys_unique(s.drop_last()));
        lemma_best_replace(s.drop_last(), j, c);
        assert(t.drop_last() =~= s.drop_last().update(j, c));
        assert(key_of(s.last()) != key_of(s[j]));
        lemma_best_is_max(s.drop_last().update(j, c));
        assert(!best(s.drop_last()).contains_key(key_of(s.last()))) by {
            if best(s.drop_last()).contains_key(key_of(s.last())) {
                let q = choose|q: int| 0 <= q < s.drop_last().len() && key_of(s.drop_last()[q]) == key_of(s.last());
                assert(key_of(s[q]) != key_of(s[s.len() - 1]));
            }
        }
        assert(best(t) =~= best(s).insert(key_of(c), c.profit.value()));
    }
}

/// With each swap once, a candidate's profit is its swap's best profit.
proof fn lemma_best_at_unique(s: Seq<SwapCandidate>, i: int)
    requires
        keys_unique(s),
        0 <= i < s.len(),
    ensures
        best(s).contains_key(key_of(s[i])),
        best(s)[key_of(s[i])] == s[i].profit.value(),
{
    lemma_best_is_max(s);
    let k = key_of(s[i]);
    assert(best(s).contains_key(k));
    let j = choose|j: int| 0 <= j < s.len() && key_of(s[j]) == k && s[j].profit.value() == best(s)[k];
}

proof fn lemma_sorted_prefix_agrees(r1: Seq<SwapCandidate>, r2: Seq<SwapCandidate>, i: int)
    requires
        sorted_by_key(r1),
        sorted_by_key(r2),
        best(r1) == best(r2),
        0 <= i < r1.len(),
        i < r2.len(),
    ensures
        forall|q: int| 0 <= q <= i ==> key_of(#[trigger] r1[q]) == key_of(r2[q]),
    decreases i,
{
    if i > 0 {
        lemma_sorted_prefix_agrees(r1, r2, i - 1);
    }
    lemma_sorted_keys_unique(r1);
    lemma_sorted_keys_unique(r2);
    lemma_best_is_max(r1);
    lemma_best_is_max(r2);
    let k1 = key_of(r1[i]);
    let k2 = key_of(r2[i]);
    if k1 != k2 {
        lemma_key_order(k1, k2, k1);
        lemma_key_order(k2, k1, k2);
        if key_before(k1, k2) {
            assert(best(r1).contains_key(k1));
            let j = choose|j: int| 0 <= j < r2.len() && key_of(r2[j]) == k1;
            if j < i {
                assert(key_of(r1[j]) == key_of(r2[j]));
            } else if j > i {
                assert(key_before(k2, key_of(r2[j])));
            }
        } else {
            assert(best(r2).contains_key(k2));
            let j = choose|j: int| 0 <= j < r1.len() && key_of(r1[j]) == k2;
            if j < i {
                assert(key_of(r1[j]) == key_of(r2[j]));
            } else if j > i {
                assert(key_before(k1, key_of(r1[j])));
            }
        }
    }
}

/// The merged output is fixed by the multiset of candidates: merging two
/// arrangements of the same candidates yields the same swaps, in the same
/// order, with the same profits.
pub proof fn lemma_merge_deterministic(
    c1: Seq<SwapCandidate>,
    c2: Seq<SwapCandidate>,
    r1: Seq<SwapCandidate>,
    r2: Seq<SwapCandidate>,
)
    requires
        c1.to_multiset() == c2.to_multiset(),
        sorted_by_key(r1),
        best(r1) == best(c1),
        sorted_by_key(r2),
        best(r2) == best(c2),
    ensures
        r1.len() == r2.len(),
        forall|q: int|
            0 <= q < r1.len() ==> key_of(#[trigger] r1[q]) == key_of(r2[q]) && r1[q].profit.value()
                == r2[q].profit.value(),
{
    lemma_merge_order_independent(c1, c2);
    lemma_sorted_keys_unique(r1);
    lemma_sorted_keys_unique(r2);
    lemma_best_is_max(r1);
    lemma_best_is_max(r2);
    let n = if r1.len() < r2.len() {
        r1.len()
    } else {
        r2.len()
    };
    if n > 0 {
        lemma_sorted_prefix_agrees(r1, r2, n - 1);
    }
    if r1.len() < r2.len() {
        let k = key_of(r2[n as int]);
        assert(best(r1).contains_key(k));
        let j = choose|j: int| 0 <= j < r1.len() && key_of(r1[j]) == k;
        assert(key_of(r1[j]) == key_of(r2[j]));
    } else if r2.len() < r1.len() {
        let k = key_of(r1[n as int]);
        assert(best(r2).contains_key(k));
        let j = choose|j: int| 0 <= j < r2.len() && key_of(r2[j]) == k;
        assert(key_of(r1[j]) == key_of(r2[j]));
    }
    assert forall|q: int| 0 <= q < r1.len() implies key_of(#[trigger] r1[q]) == key_of(r2[q]) && r1[q].profit.value()
        == r2[q].profit.value() by {
        lemma_best_at_unique(r1, q);
        lemma_best_at_unique(r2, q);
    }
}

} // verus!
