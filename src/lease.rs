use vstd::prelude::*;
use rand::seq::SliceRandom;

verus! {

/// A pattern may be handed out afresh when it was never handed out, or when
/// more than `dur` has passed since it last was.
pub open spec fn expired(lease: Option<u128>, now: u128, dur: u128) -> bool {
    match lease {
        None => true,
        Some(t) => t + dur < now,
    }
}

/// The candidates whose lease has expired, in order.
pub open spec fn fresh_of(leases: Seq<Option<u128>>, cands: Seq<usize>, now: u128, dur: u128) -> Seq<usize>
    decreases cands.len(),
{
    if cands.len() == 0 {
        Seq::empty()
    } else {
        let r = fresh_of(leases, cands.drop_last(), now, dur);
        if expired(leases[cands.last() as int], now, dur) {
            r.push(cands.last())
        } else {
            r
        }
    }
}

/// The candidates handed out too recently, in order.
pub open spec fn stale_of(leases: Seq<Option<u128>>, cands: Seq<usize>, now: u128, dur: u128) -> Seq<usize>
    decreases cands.len(),
{
    if cands.len() == 0 {
        Seq::empty()
    } else {
        let r = stale_of(leases, cands.drop_last(), now, dur);
        if expired(leases[cands.last() as int], now, dur) {
            r
        } else {
            r.push(cands.last())
        }
    }
}

/// Up to `n` candidates: the expired ones first, in order; if they do not
/// reach `n`, the recent ones follow, the last set aside first.
pub open spec fn selection(leases: Seq<Option<u128>>, cands: Seq<usize>, n: nat, now: u128, dur: u128) -> Seq<
    usize,
> {
    let fresh = fresh_of(leases, cands, now, dur);
    let stale = stale_of(leases, cands, now, dur);
    if fresh.len() >= n {
        fresh.take(n as int)
    } else if fresh.len() + stale.len() <= n {
        fresh + stale.reverse()
    } else {
        fresh + stale.reverse().take(n - fresh.len())
    }
}

/// The leases after stamping each selected position with `now`.
pub open spec fn stamped(leases: Seq<Option<u128>>, sel: Seq<usize>, now: u128) -> Seq<Option<u128>>
    decreases sel.len(),
{
    if sel.len() == 0 {
        leases
    } else {
        stamped(leases, sel.drop_last(), now).update(sel.last() as int, Some(now))
    }
}

/// Relies on rand's `SliceRandom::shuffle` with the thread-local generator:
/// it reorders the items in place by swaps, so the same items remain.
#[verifier::external_body]
pub(crate) fn shuffle(v: &mut Vec<usize>)
    ensures
        final(v)@.to_multiset() == old(v)@.to_multiset(),
{
    v.shuffle(&mut rand::thread_rng());
}

/// Chooses up to `n` of the candidate positions to hand out at time `now`,
/// under leases that last `dur`.
pub fn select_block(leases: &Vec<Option<u128>>, cands: &Vec<usize>, n: usize, now: u128, dur: u128) -> (r: Vec<
    usize,
>)
    requires
        forall|i: int| 0 <= i < cands@.len() ==> #[trigger] cands@[i] < leases@.len(),
    ensures
        r@ == selection(leases@, cands@, n as nat, now, dur),
{
    let mut fresh: Vec<usize> = Vec::new();
    let mut stale: Vec<usize> = Vec::new();
    let mut i: usize = 0;
    while i < cands.len()
        invariant
            0 <= i <= cands@.len(),
            forall|i: int| 0 <= i < cands@.len() ==> #[trigger] cands@[i] < leases@.len(),
            fresh@ == fresh_of(leases@, cands@.take(i as int), now, dur),
            stale@ == stale_of(leases@, cands@.take(i as int), now, dur),
            fresh@.len() + stale@.len() == i,
        decreases cands@.len() - i,
    {
        assert(cands@.take(i + 1).drop_last() =~= cands@.take(i as int));
        let c = cands[i];
        let open = match leases[c] {
            None => true,
            Some(t) => t < now && now - t > dur,
        };
        if open {
            fresh.push(c);
        } else {
            stale.push(c);
        }
        i = i + 1;
    }
    assert(cands@.take(cands@.len() as int) =~= cands@);
    let ghost all_fresh = fresh@;
    let ghost all_stale = stale@;
    let mut r: Vec<usize> = Vec::new();
    let mut j: usize = 0;
    while j < fresh.len() && j < n
        invariant
            0 <= j <= fresh@.len(),
            j <= n,
            fresh@ == all_fresh,
            r@ == fresh@.take(j as int),
        decreases fresh@.len() - j,
    {
        r.push(fresh[j]);
        j = j + 1;
        assert(r@ =~= fresh@.take(j as int));
    }
    if r.len() == fresh.len() {
        assert(fresh@.take(j as int) =~= fresh@);
    }
    while r.len() < n && stale.len() > 0
        invariant
            all_fresh.len() < n ==> r@ == all_fresh + all_stale.reverse().take(all_stale.len() - stale@.len()),
            all_fresh.len() >= n ==> r@ == all_fresh.take(n as int) && stale@ == all_stale,
            all_fresh.len() < n ==> r@.len() == all_fresh.len() + all_stale.len() - stale@.len(),
            all_fresh.len() < n ==> r@.len() <= n,
            stale@ == all_stale.take(stale@.len() as int),
            stale@.len() <= all_stale.len(),
        decreases stale@.len(),
    {
        let s = stale.pop().unwrap();
        r.push(s);
        proof {
            let done = all_stale.len() - stale@.len();
            assert(all_stale.reverse()[done - 1] == all_stale[stale@.len() as int]);
            assert(all_stale.reverse().take(done) =~= all_stale.reverse().take(done - 1).push(s));
            assert(stale@ =~= all_stale.take(stale@.len() as int));
        }
    }
    proof {
        assert(all_fresh == fresh_of(leases@, cands@, now, dur));
        assert(all_stale == stale_of(leases@, cands@, now, dur));
        if all_fresh.len() < n {
            if all_fresh.len() + all_stale.len() <= n {
                assert(stale@.len() == 0);
                assert(all_stale.reverse().take(all_stale.len() as int) =~= all_stale.reverse());
                assert(r@ =~= all_fresh + all_stale.reverse());
            } else {
                assert(r@.len() == n);
                assert(all_stale.len() - stale@.len() == n - all_fresh.len());
            }
        }
    }
    r
}

/// Stamps each selected position with `now`.
pub fn stamp(leases: &mut Vec<Option<u128>>, sel: &Vec<usize>, now: u128)
    requires
        forall|i: int| 0 <= i < sel@.len() ==> #[trigger] sel@[i] < old(leases)@.len(),
    ensures
        final(leases)@ == stamped(old(leases)@, sel@, now),
        final(leases)@.len() == old(leases)@.len(),
{
    let ghost start = leases@;
    let mut j: usize = 0;
    while j < sel.len()
        invariant
            0 <= j <= sel@.len(),
            forall|i: int| 0 <= i < sel@.len() ==> #[trigger] sel@[i] < start.len(),
            leases@ == stamped(start, sel@.take(j as int), now),
            leases@.len() == start.len(),
        decreases sel@.len() - j,
    {
        assert(sel@.take(j + 1).drop_last() =~= sel@.take(j as int));
        leases.set(sel[j], Some(now));
        j = j + 1;
    }
    assert(sel@.take(sel@.len() as int) =~= sel@);
}

proof fn lemma_split(leases: Seq<Option<u128>>, cands: Seq<usize>, now: u128, dur: u128)
    ensures
        fresh_of(leases, cands, now, dur).len() + stale_of(leases, cands, now, dur).len() == cands.len(),
        forall|x: usize| #[trigger] fresh_of(leases, cands, now, dur).contains(x) <==> cands.contains(x)
            && expired(leases[x as int], now, dur),
        forall|x: usize| #[trigger] stale_of(leases, cands, now, dur).contains(x) <==> cands.contains(x)
            && !expired(leases[x as int], now, dur),
    decreases cands.len(),
{
    if cands.len() > 0 {
        let rest = cands.drop_last();
        lemma_split(leases, rest, now, dur);
        assert forall|x: usize| cands.contains(x) <==> rest.contains(x) || x == cands.last() by {
            if cands.contains(x) {
                let k = choose|k: int| 0 <= k < cands.len() && cands[k] == x;
                if k < cands.len() - 1 {
                    assert(rest[k] == x);
                }
            }
            if rest.contains(x) {
                let k = choose|k: int| 0 <= k < rest.len() && rest[k] == x;
                assert(cands[k] == x);
            }
            if x == cands.last() {
                assert(cands[cands.len() - 1] == x);
            }
        }
        let f = fresh_of(leases, rest, now, dur);
        let s = stale_of(leases, rest, now, dur);
        assert forall|x: usize| f.push(cands.last()).contains(x) <==> f.contains(x) || x == cands.last() by {
            if f.push(cands.last()).contains(x) {
                let k = choose|k: int| 0 <= k < f.len() + 1 && f.push(cands.last())[k] == x;
                if k < f.len() {
                    assert(f[k] == x);
                }
            }
            if f.contains(x) {
                let k = choose|k: int| 0 <= k < f.len() && f[k] == x;
                assert(f.push(cands.last())[k] == x);
            }
            if x == cands.last() {
                assert(f.push(cands.last())[f.len() as int] == x);
            }
        }
        assert forall|x: usize| s.push(cands.last()).contains(x) <==> s.contains(x) || x == cands.last() by {
            if s.push(cands.last()).contains(x) {
                let k = choose|k: int| 0 <= k < s.len() + 1 && s.push(cands.last())[k] == x;
                if k < s.len() {
                    assert(s[k] == x);
                }
            }
            if s.contains(x) {
                let k = choose|k: int| 0 <= k < s.len() && s[k] == x;
                assert(s.push(cands.last())[k] == x);
            }
            if x == cands.last() {
                assert(s.push(cands.last())[s.len() as int] == x);
            }
        }
        assert forall|x: usize| #[trigger] fresh_of(leases, cands, now, dur).contains(x) <==> cands.contains(x)
            && expired(leases[x as int], now, dur) by {
            assert(f.contains(x) <==> rest.contains(x) && expired(leases[x as int], now, dur));
        }
        assert forall|x: usize| #[trigger] stale_of(leases, cands, now, dur).contains(x) <==> cands.contains(x)
            && !expired(leases[x as int], now, dur) by {
            assert(s.contains(x) <==> rest.contains(x) && !expired(leases[x as int], now, dur));
        }
    } else {
        assert forall|x: usize| #[trigger] fresh_of(leases, cands, now, dur).contains(x) <==> cands.contains(x)
            && expired(leases[x as int], now, dur) by {}
        assert forall|x: usize| #[trigger] stale_of(leases, cands, now, dur).contains(x) <==> cands.contains(x)
            && !expired(leases[x as int], now, dur) by {}
    }
}

/// What a selection hands out: never more than `n` positions, only
/// candidates, and every candidate whose lease has expired when those fit
/// in `n`. Once the expired candidates do not fill `n`, the recently handed
/// out ones are handed out again; when all candidates fit in `n`, every one
/// of them is handed out.
pub proof fn lemma_selection(leases: Seq<Option<u128>>, cands: Seq<usize>, n: nat, now: u128, dur: u128)
    ensures
        selection(leases, cands, n, now, dur).len() <= n,
        forall|k: int|
            0 <= k < selection(leases, cands, n, now, dur).len() ==> cands.contains(
                #[trigger] selection(leases, cands, n, now, dur)[k],
            ),
        fresh_of(leases, cands, now, dur).len() <= n ==> forall|x: usize|
            cands.contains(x) && expired(leases[x as int], now, dur) ==> #[trigger] selection(
                leases,
                cands,
                n,
                now,
                dur,
            ).contains(x),
        cands.len() <= n ==> forall|x: usize| #[trigger] cands.contains(x) ==> selection(
            leases,
            cands,
            n,
            now,
            dur,
        ).contains(x),
{
    lemma_split(leases, cands, now, dur);
    let f = fresh_of(leases, cands, now, dur);
    let s = stale_of(leases, cands, now, dur);
    let r = selection(leases, cands, n, now, dur);
    assert forall|k: int| 0 <= k < r.len() implies cands.contains(#[trigger] r[k]) by {
        if f.len() >= n {
            assert(f.contains(f[k]));
        } else if k < f.len() {
            assert(r[k] == f[k]);
            assert(f.contains(f[k]));
        } else {
            let i = s.len() - 1 - (k - f.len());
            assert(r[k] == s[i]);
            assert(s.contains(s[i]));
        }
    }
    if f.len() <= n {
        assert forall|x: usize| cands.contains(x) && expired(leases[x as int], now, dur) implies #[trigger] r.contains(x) by {
            assert(f.contains(x));
            let k = choose|k: int| 0 <= k < f.len() && f[k] == x;
            if f.len() == n {
                assert(f.take(n as int) =~= f);
            }
            assert(r[k] == x);
        }
    }
    if cands.len() <= n {
        assert forall|x: usize| #[trigger] cands.contains(x) implies r.contains(x) by {
            if expired(leases[x as int], now, dur) {
                assert(f.contains(x));
                let k = choose|k: int| 0 <= k < f.len() && f[k] == x;
                if f.len() == n {
                    assert(f.take(n as int) =~= f);
                }
                assert(r[k] == x);
            } else {
                assert(s.contains(x));
                let k = choose|k: int| 0 <= k < s.len() && s[k] == x;
                if f.len() == n {
                    assert(s.len() == 0);
                }
                let i = f.len() + (s.len() - 1 - k);
                assert(r[i] == s.reverse()[s.len() - 1 - k]);
                assert(r[i] == x);
            }
        }
    }
}

} // verus!
