use vstd::prelude::*;
use itertools::Itertools;

verus! {

/// The `k`-element selections of `s`, each a subsequence of `s`, listed in
/// lexicographic order of the positions taken.
pub open spec fn combos<T>(s: Seq<T>, k: nat) -> Seq<Seq<T>>
    decreases s.len(),
{
    if k == 0 {
        seq![Seq::<T>::empty()]
    } else if s.len() == 0 {
        Seq::empty()
    } else {
        combos(s.drop_first(), (k - 1) as nat).map_values(|c: Seq<T>| seq![s[0]] + c) + combos(
            s.drop_first(),
            k,
        )
    }
}

/// Relies on itertools' `Itertools::combinations`: it yields the `k`-element
/// selections of the items in lexicographic order of their positions, one
/// empty selection for `k == 0` and none when `k` exceeds the number of items.
#[verifier::external_body]
pub(crate) fn combinations_of<T: Copy>(items: &Vec<T>, k: usize) -> (r: Vec<Vec<T>>)
    ensures
        r@.len() == combos(items@, k as nat).len(),
        forall|i: int| 0 <= i < r@.len() ==> #[trigger] r@[i]@ == combos(items@, k as nat)[i],
{
    items.iter().copied().combinations(k).collect()
}

/// Every selection has `k` elements, each taken from `s`, and there are at
/// most `2^|s|` of them.
pub proof fn lemma_combos<T>(s: Seq<T>, k: nat)
    ensures
        combos(s, k).len() <= vstd::arithmetic::power2::pow2(s.len()),
        forall|i: int| 0 <= i < combos(s, k).len() ==> (#[trigger] combos(s, k)[i]).len() == k,
        forall|i: int, j: int|
            0 <= i < combos(s, k).len() && 0 <= j < k ==> s.contains(#[trigger] combos(s, k)[i][j]),
    decreases s.len(),
{
    vstd::arithmetic::power2::lemma_pow2_pos(s.len());
    if k != 0 && s.len() != 0 {
        let rest = s.drop_first();
        lemma_combos(rest, (k - 1) as nat);
        lemma_combos(rest, k);
        vstd::arithmetic::power2::lemma_pow2_adds(1, rest.len());
        vstd::arithmetic::power2::lemma2_to64();
        let with = combos(rest, (k - 1) as nat).map_values(|c: Seq<T>| seq![s[0]] + c);
        let without = combos(rest, k);
        assert(combos(s, k) == with + without);
        assert forall|i: int| 0 <= i < combos(s, k).len() implies (#[trigger] combos(s, k)[i]).len()
            == k by {
            if i < with.len() {
                assert(combos(s, k)[i] == seq![s[0]] + combos(rest, (k - 1) as nat)[i]);
            } else {
                assert(combos(s, k)[i] == without[i - with.len()]);
            }
        }
        assert forall|i: int, j: int|
            0 <= i < combos(s, k).len() && 0 <= j < k implies s.contains(
            #[trigger] combos(s, k)[i][j],
        ) by {
            if i < with.len() {
                let c = combos(rest, (k - 1) as nat)[i];
                assert(combos(s, k)[i] == seq![s[0]] + c);
                if j == 0 {
                    assert(s[0] == combos(s, k)[i][j]);
                } else {
                    assert(combos(s, k)[i][j] == c[j - 1]);
                    assert(rest.contains(c[j - 1]));
                    let m = choose|m: int| 0 <= m < rest.len() && rest[m] == c[j - 1];
                    assert(s[m + 1] == rest[m]);
                }
            } else {
                let c = without[i - with.len()];
                assert(combos(s, k)[i] == c);
                assert(rest.contains(c[j]));
                let m = choose|m: int| 0 <= m < rest.len() && rest[m] == c[j];
                assert(s[m + 1] == rest[m]);
            }
        }
    } else if k == 0 {
        assert(combos(s, k).len() == 1);
    }
}

/// The number of `k`-element selections from `n` items.
pub open spec fn binom(n: nat, k: nat) -> nat
    decreases n,
{
    if k == 0 {
        1
    } else if n == 0 {
        0
    } else {
        binom((n - 1) as nat, (k - 1) as nat) + binom((n - 1) as nat, k)
    }
}

/// `n * (n - 1) * ... * (n - k + 1)`.
pub open spec fn falling(n: nat, k: nat) -> nat
    decreases k,
{
    if k == 0 {
        1
    } else {
        n * falling((n - 1) as nat, (k - 1) as nat)
    }
}

pub open spec fn factorial(k: nat) -> nat
    decreases k,
{
    if k == 0 {
        1
    } else {
        k * factorial((k - 1) as nat)
    }
}

/// There are `binom(|s|, k)` selections.
pub proof fn lemma_combos_len<T>(s: Seq<T>, k: nat)
    ensures
        combos(s, k).len() == binom(s.len(), k),
    decreases s.len(),
{
    if k != 0 && s.len() != 0 {
        lemma_combos_len(s.drop_first(), (k - 1) as nat);
        lemma_combos_len(s.drop_first(), k);
    }
}

proof fn lemma_falling_zero(m: nat, j: nat)
    requires
        j > m,
    ensures
        falling(m, j) == 0,
    decreases m,
{
    let rest = falling((m - 1) as nat, (j - 1) as nat);
    assert(falling(m, j) == m * rest);
    if m > 0 {
        lemma_falling_zero((m - 1) as nat, (j - 1) as nat);
        assert(m * 0 == 0);
    } else {
        assert(0 * rest == 0);
    }
}

proof fn lemma_falling_step(m: nat, j: nat)
    requires
        j <= m,
    ensures
        falling(m, j + 1) == falling(m, j) * (m - j),
    decreases j,
{
    let up = falling((m - 1) as nat, j);
    assert(falling(m, j + 1) == m * up);
    if j > 0 {
        lemma_falling_step((m - 1) as nat, (j - 1) as nat);
        let f = falling((m - 1) as nat, (j - 1) as nat);
        assert(up == f * (m - j));
        assert(falling(m, j) == m * f);
        assert(m * (f * (m - j)) == (m * f) * (m - j)) by (nonlinear_arith);
        assert(falling(m, j + 1) == m * (f * (m - j)));
        assert(falling(m, j + 1) == falling(m, j) * (m - j));
    } else {
        assert(up == 1);
        assert(falling(m, 0) == 1);
        assert(m * 1 == 1 * (m - 0));
    }
}

/// `k! * binom(n, k) == n * (n - 1) * ... * (n - k + 1)`.
pub proof fn lemma_binom_falling(n: nat, k: nat)
    ensures
        factorial(k) * binom(n, k) == falling(n, k),
    decreases n,
{
    if k == 0 {
        assert(factorial(0) == 1);
        assert(binom(n, 0) == 1);
        assert(falling(n, 0) == 1);
        assert(1nat * 1nat == 1);
    } else if n == 0 {
        lemma_falling_zero(0, k);
        assert(binom(0, k) == 0);
        assert(factorial(k) * 0 == 0);
    } else {
        let (m, j) = ((n - 1) as nat, (k - 1) as nat);
        lemma_binom_falling(m, j);
        lemma_binom_falling(m, k);
        let (a, b) = (binom(m, j), binom(m, k));
        let fj = falling(m, j);
        let fk = falling(m, k);
        let fj_fact = factorial(j);
        let fk_fact = factorial(k);
        assert(binom(n, k) == a + b);
        assert(fk_fact == k * fj_fact);
        assert(fj_fact * a == fj);
        assert(fk_fact * b == fk);
        assert(falling(n, k) == n * fj);
        assert(fk_fact * (a + b) == k * fj + fk) by (nonlinear_arith)
            requires
                fk_fact == k * fj_fact,
                fj_fact * a == fj,
                fk_fact * b == fk,
        ;
        if j <= m {
            lemma_falling_step(m, j);
            assert(fk == fj * (m - j));
            assert(k * fj + fj * (m - j) == n * fj) by (nonlinear_arith)
                requires
                    m == n - 1,
                    j == k - 1,
                    j <= m,
            ;
        } else {
            lemma_falling_zero(m, j);
            lemma_falling_zero(m, k);
            assert(k * 0 + 0 == n * 0);
        }
    }
}

/// There are 2,598,960 five-card hands in a 52-card deck.
pub proof fn lemma_five_of_fifty_two()
    ensures
        binom(52, 5) == 2598960,
{
    lemma_binom_falling(52, 5);
    assert(factorial(0) == 1);
    assert(factorial(1) == 1);
    assert(factorial(2) == 2);
    assert(factorial(3) == 6);
    assert(factorial(4) == 24);
    assert(factorial(5) == 120);
    assert(falling(47, 0) == 1);
    assert(falling(48, 1) == 48);
    assert(falling(49, 2) == 2352);
    assert(falling(50, 3) == 117600);
    assert(falling(51, 4) == 5997600);
    assert(falling(52, 5) == 311875200);
}

} // verus!
