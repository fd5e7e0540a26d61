//! Candidate arbitrage cycles: paths of two or three swaps that start and end
//! at the gas token and pass through the pool whose state changed.
use vstd::prelude::*;

use crate::health::PoolHealth;
use crate::primitives::{lemma_address_eq, Address};

verus! {

/// One direction in which a pool swaps: `token_in` for `token_out`.
#[derive(Clone, Copy, Debug, PartialEq, Eq)]
pub struct SwapStep {
    pub pool: Address,
    pub token_in: Address,
    pub token_out: Address,
}

/// Each step takes the token the previous one gave.
pub open spec fn token_chained(p: Seq<SwapStep>) -> bool {
    forall|i: int| 0 <= i < p.len() - 1 ==> #[trigger] p[i].token_out == p[i + 1].token_in
}

/// `p` is a cycle the search may emit: two or three known, enabled swap
/// directions, token-chained, from the gas token back to it, through the
/// trigger pool.
pub open spec fn is_candidate(
    p: Seq<SwapStep>,
    directions: Seq<SwapStep>,
    gas_token: Address,
    trigger: Address,
    disabled: Set<Address>,
) -> bool {
    &&& p.len() == 2 || p.len() == 3
    &&& p[0].token_in == gas_token
    &&& p[p.len() - 1].token_out == gas_token
    &&& token_chained(p)
    &&& forall|i: int| 0 <= i < p.len() ==> directions.contains(#[trigger] p[i])
    &&& forall|i: int| 0 <= i < p.len() ==> !disabled.contains(#[trigger] p[i].pool)
    &&& exists|i: int| 0 <= i < p.len() && #[trigger] p[i].pool == trigger
}

fn same(a: &Address, b: &Address) -> (r: bool)
    ensures
        r == (*a == *b),
{
    proof {
        lemma_address_eq(*a, *b);
    }
    *a == *b
}

/// Some emitted path is `p`.
pub open spec fn emitted(r: Seq<Vec<SwapStep>>, p: Seq<SwapStep>) -> bool {
    exists|k: int| 0 <= k < r.len() && #[trigger] r[k]@ == p
}

proof fn lemma_emitted_grow(r0: Seq<Vec<SwapStep>>, v: Vec<SwapStep>)
    ensures
        forall|q: Seq<SwapStep>| #[trigger] emitted(r0, q) ==> emitted(r0.push(v), q),
        emitted(r0.push(v), v@),
{
    assert forall|q: Seq<SwapStep>| #[trigger] emitted(r0, q) implies emitted(r0.push(v), q) by {
        let k = choose|k: int| 0 <= k < r0.len() && #[trigger] r0[k]@ == q;
        assert(r0.push(v)[k] == r0[k]);
    }
    assert(r0.push(v)[r0.len() as int] == v);
}

proof fn lemma_take_contains(s: Seq<SwapStep>, j: int, x: SwapStep)
    requires
        0 <= j < s.len(),
    ensures
        s.take(j + 1).contains(x) <==> (s.take(j).contains(x) || x == s[j]),
{
    if s.take(j + 1).contains(x) {
        let q = choose|q: int| 0 <= q < j + 1 && #[trigger] s.take(j + 1)[q] == x;
        if q < j {
            assert(s.take(j)[q] == x);
        }
    }
    if s.take(j).contains(x) {
        let q = choose|q: int| 0 <= q < j && #[trigger] s.take(j)[q] == x;
        assert(s.take(j + 1)[q] == x);
    }
    if x == s[j] {
        assert(s.take(j + 1)[j] == x);
    }
}

proof fn lemma_take_all(s: Seq<SwapStep>)
    ensures
        s.take(s.len() as int) == s,
{
    assert(s.take(s.len() as int) =~= s);
}

/// The cycles of two or three steps over `directions` that start and end at
/// `gas_token`, pass through the `trigger` pool and use no disabled pool:
/// every path emitted is such a cycle, and every such cycle is emitted.
pub fn find_cycles(
    directions: &Vec<SwapStep>,
    health: &PoolHealth,
    gas_token: &Address,
    trigger: &Address,
) -> (r: Vec<Vec<SwapStep>>)
    ensures
        forall|k: int|
            0 <= k < r@.len() ==> is_candidate(
                #[trigger] r@[k]@,
                directions@,
                *gas_token,
                *trigger,
                health.disabled_set(),
            ),
        forall|p: Seq<SwapStep>|
            #[trigger] is_candidate(p, directions@, *gas_token, *trigger, health.disabled_set()) ==> emitted(
                r@,
                p,
            ),
{
    let ghost ds = directions@;
    let ghost dis = health.disabled_set();
    let ghost g = *gas_token;
    let ghost t = *trigger;
    let mut r: Vec<Vec<SwapStep>> = Vec::new();
    let n = directions.len();
    let mut i: usize = 0;
    while i < n
        invariant
            0 <= i <= n,
            n == ds.len(),
            ds == directions@,
            dis == health.disabled_set(),
            g == *gas_token,
            t == *trigger,
            forall|k: int| 0 <= k < r@.len() ==> is_candidate(#[trigger] r@[k]@, ds, g, t, dis),
            forall|p: Seq<SwapStep>|
                #[trigger] is_candidate(p, ds, g, t, dis) && ds.take(i as int).contains(p[0]) ==> emitted(
                    r@,
                    p,
                ),
        decreases n - i,
    {
        let a = directions[i];
        if same(&a.token_in, gas_token) && !health.is_disabled(&a.pool) {
            let mut j: usize = 0;
            while j < n
                invariant
                    0 <= j <= n,
                    i < n,
                    n == ds.len(),
                    ds == directions@,
                    dis == health.disabled_set(),
                    g == *gas_token,
                    t == *trigger,
                    a == ds[i as int],
                    a.token_in == g,
                    !dis.contains(a.pool),
                    forall|k: int| 0 <= k < r@.len() ==> is_candidate(#[trigger] r@[k]@, ds, g, t, dis),
                    forall|p: Seq<SwapStep>|
                        #[trigger] is_candidate(p, ds, g, t, dis) && ds.take(i as int).contains(p[0]) ==> emitted(
                            r@,
                            p,
                        ),
                    forall|p: Seq<SwapStep>|
                        #[trigger] is_candidate(p, ds, g, t, dis) && p[0] == a && ds.take(j as int).contains(p[1])
                            ==> emitted(r@, p),
                decreases n - j,
            {
                let b = directions[j];
                if same(&b.token_in, &a.token_out) && !health.is_disabled(&b.pool) {
                    let through_ab = same(&a.pool, trigger) || same(&b.pool, trigger);
                    if same(&b.token_out, gas_token) && through_ab {
                        let mut p: Vec<SwapStep> = Vec::new();
                        p.push(a);
                        p.push(b);
                        proof {
                            assert(ds.contains(ds[i as int]));
                            assert(ds.contains(ds[j as int]));
                            assert(p@[0] == a && p@[1] == b);
                            if a.pool == t {
                                assert(p@[0].pool == t);
                            } else {
                                assert(p@[1].pool == t);
                            }
                            lemma_emitted_grow(r@, p);
                        }
                        r.push(p);
                    }
                    proof {
                        assert forall|p: Seq<SwapStep>|
                            #[trigger] is_candidate(p, ds, g, t, dis) && p.len() == 2 && p[0] == a && p[1] == b
                            implies emitted(r@, p) by {
                            assert(p =~= seq![a, b]);
                            if !(b.token_out == g && through_ab) {
                                assert(p[p.len() - 1] == b);
                                if !(b.token_out == g) {
                                } else {
                                    let q = choose|q: int| 0 <= q < p.len() && #[trigger] p[q].pool == t;
                                    assert(q == 0 || q == 1);
                                }
                            } else {
                                let q = r@.len() - 1;
                                assert(r@[q]@ =~= p);
                            }
                        }
                    }
                    let mut k: usize = 0;
                    while k < n
                        invariant
                            0 <= k <= n,
                            i < n,
                            j < n,
                            n == ds.len(),
                            ds == directions@,
                            dis == health.disabled_set(),
                            g == *gas_token,
                            t == *trigger,
                            a == ds[i as int],
                            b == ds[j as int],
                            a.token_in == g,
                            b.token_in == a.token_out,
                            !dis.contains(a.pool),
                            !dis.contains(b.pool),
                            through_ab == (a.pool == t || b.pool == t),
                            forall|q: int| 0 <= q < r@.len() ==> is_candidate(#[trigger] r@[q]@, ds, g, t, dis),
                            forall|p: Seq<SwapStep>|
                                #[trigger] is_candidate(p, ds, g, t, dis) && ds.take(i as int).contains(p[0])
                                    ==> emitted(r@, p),
                            forall|p: Seq<SwapStep>|
                                #[trigger] is_candidate(p, ds, g, t, dis) && p[0] == a && ds.take(j as int).contains(
                                    p[1],
                                ) ==> emitted(r@, p),
                            forall|p: Seq<SwapStep>|
                                #[trigger] is_candidate(p, ds, g, t, dis) && p.len() == 2 && p[0] == a && p[1] == b
                                    ==> emitted(r@, p),
                            forall|p: Seq<SwapStep>|
                                #[trigger] is_candidate(p, ds, g, t, dis) && p.len() == 3 && p[0] == a && p[1] == b
                                    && ds.take(k as int).contains(p[2]) ==> emitted(r@, p),
                        decreases n - k,
                    {
                        let c = directions[k];
                        let hit = same(&c.token_in, &b.token_out) && same(&c.token_out, gas_token)
                            && !health.is_disabled(&c.pool) && (through_ab || same(&c.pool, trigger));
                        if hit {
                            let mut p: Vec<SwapStep> = Vec::new();
                            p.push(a);
                            p.push(b);
                            p.push(c);
                            proof {
                                assert(ds.contains(ds[i as int]));
                                assert(ds.contains(ds[j as int]));
                                assert(ds.contains(ds[k as int]));
                                assert(p@[0] == a && p@[1] == b && p@[2] == c);
                                if a.pool == t {
                                    assert(p@[0].pool == t);
                                } else if b.pool == t {
                                    assert(p@[1].pool == t);
                                } else {
                                    assert(p@[2].pool == t);
                                }
                                assert(token_chained(p@));
                                lemma_emitted_grow(r@, p);
                            }
                            r.push(p);
                        }
                        proof {
                            assert forall|p: Seq<SwapStep>|
                                #[trigger] is_candidate(p, ds, g, t, dis) && p.len() == 3 && p[0] == a && p[1] == b
                                    && ds.take(k as int + 1).contains(p[2]) implies emitted(r@, p) by {
                                lemma_take_contains(ds, k as int, p[2]);
                                if p[2] == c {
                                    assert(p =~= seq![a, b, c]);
                                    if hit {
                                        let q = r@.len() - 1;
                                        assert(r@[q]@ =~= p);
                                    } else {
                                        assert(p[1].token_out == p[2].token_in);
                                        assert(!dis.contains(p[2].pool));
                                        let q = choose|q: int| 0 <= q < p.len() && #[trigger] p[q].pool == t;
                                        assert(q == 0 || q == 1 || q == 2);
                                    }
                                }
                            }
                        }
                        k = k + 1;
                    }
                    proof {
                        lemma_take_all(ds);
                    }
                }
                proof {
                    assert forall|p: Seq<SwapStep>|
                        #[trigger] is_candidate(p, ds, g, t, dis) && p[0] == a && ds.take(j as int + 1).contains(p[1])
                            implies emitted(r@, p) by {
                        lemma_take_contains(ds, j as int, p[1]);
                        if p[1] == b {
                            assert(p[0].token_out == p[1].token_in);
                            assert(!dis.contains(p[1].pool));
                            assert(ds.contains(p[p.len() - 1]));
                            lemma_take_all(ds);
                        }
                    }
                }
                j = j + 1;
            }
            proof {
                lemma_take_all(ds);
            }
        }
        proof {
            assert forall|p: Seq<SwapStep>|
                #[trigger] is_candidate(p, ds, g, t, dis) && ds.take(i as int + 1).contains(p[0]) implies emitted(
                r@,
                p,
            ) by {
                lemma_take_contains(ds, i as int, p[0]);
                if p[0] == a {
                    assert(!dis.contains(p[0].pool));
                    assert(ds.contains(p[1]));
                    lemma_take_all(ds);
                }
            }
        }
        i = i + 1;
    }
    proof {
        lemma_take_all(ds);
        assert forall|p: Seq<SwapStep>| #[trigger] is_candidate(p, ds, g, t, dis) implies emitted(r@, p) by {
            assert(ds.contains(p[0]));
        }
    }
    r
}

} // verus!
