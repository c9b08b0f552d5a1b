//! Positional numerals over an arbitrary base, most significant digit first.
//! The same codec numbers passwords, reads digest windows and lays out
//! fixed-width integers.
use vstd::arithmetic::div_mod::*;
use vstd::arithmetic::power::*;
use vstd::prelude::*;

verus! {

/// The number that the digits `ds` denote in base `base`.
pub open spec fn value_of(ds: Seq<nat>, base: nat) -> nat
    decreases ds.len(),
{
    if ds.len() == 0 {
        0
    } else {
        value_of(ds.drop_last(), base) * base + ds.last()
    }
}

/// The `len` lowest digits of `n` in base `base`, most significant first.
pub open spec fn digits_of(n: nat, base: nat, len: nat) -> Seq<nat>
    decreases len,
{
    if len == 0 {
        Seq::empty()
    } else {
        digits_of(n / base, base, (len - 1) as nat).push(n % base)
    }
}

/// Every digit of `ds` is below `base`.
pub open spec fn digits_below(ds: Seq<nat>, base: nat) -> bool {
    forall|i: int| 0 <= i < ds.len() ==> #[trigger] ds[i] < base
}

pub proof fn lemma_digits_of_shape(n: nat, base: nat, len: nat)
    requires
        base > 0,
    ensures
        digits_of(n, base, len).len() == len,
        digits_below(digits_of(n, base, len), base),
    decreases len,
{
    if len > 0 {
        lemma_digits_of_shape(n / base, base, (len - 1) as nat);
        lemma_mod_bound(n as int, base as int);
    }
}

/// One more factor of the base.
pub proof fn lemma_pow_step(b: int, e: nat)
    ensures
        pow(b, e + 1) == b * pow(b, e),
{
    reveal(pow);
}

proof fn lemma_mod_bound(x: int, m: int)
    requires
        x >= 0,
        m > 0,
    ensures
        0 <= x % m < m,
{
    lemma_mod_pos_bound(x, m);
}

/// A numeral with `len` digits denotes a number below `base^len`.
pub proof fn lemma_value_bound(ds: Seq<nat>, base: nat)
    requires
        digits_below(ds, base),
    ensures
        value_of(ds, base) < pow(base as int, ds.len()),
    decreases ds.len(),
{
    if ds.len() > 0 {
        let rest = ds.drop_last();
        assert(digits_below(rest, base)) by {
            assert forall|i: int| 0 <= i < rest.len() implies #[trigger] rest[i] < base by {
                assert(rest[i] == ds[i]);
            }
        }
        lemma_value_bound(rest, base);
        let v = value_of(rest, base) as int;
        let p = pow(base as int, rest.len());
        let d = ds.last() as int;
        assert(d < base);
        assert(v * base + d < p * base) by (nonlinear_arith)
            requires
                v < p,
                0 <= d < base,
        ;
        lemma_pow_adds(base as int, rest.len(), 1);
        lemma_pow1(base as int);
        assert(pow(base as int, ds.len()) == p * base);
    } else {
        lemma_pow0(base as int);
    }
}

/// Reading back the digits of `n` gives `n`, when `n` fits in `len` digits.
pub proof fn lemma_value_of_digits(n: nat, base: nat, len: nat)
    requires
        base > 0,
        n < pow(base as int, len),
    ensures
        value_of(digits_of(n, base, len), base) == n,
    decreases len,
{
    if len == 0 {
        lemma_pow0(base as int);
    } else {
        let l1 = (len - 1) as nat;
        let p = pow(base as int, l1);
        lemma_pow_adds(base as int, l1, 1);
        lemma_pow1(base as int);
        assert(n < p * base);
        lemma_fundamental_div_mod(n as int, base as int);
        lemma_mod_bound(n as int, base as int);
        let q = n as int / base as int;
        assert(q < p) by (nonlinear_arith)
            requires
                n == base * q + n as int % base as int,
                n < p * base,
                0 <= n as int % base as int,
                base > 0,
        ;
        lemma_div_pos_is_pos(n as int, base as int);
        lemma_value_of_digits(n / base, base, l1);
        let ds = digits_of(n, base, len);
        assert(ds.drop_last() =~= digits_of(n / base, base, l1));
        assert(ds.last() == n % base);
        assert((n / base) * base + n % base == n) by (nonlinear_arith)
            requires
                n == base * q + n as int % base as int,
                q == n / base,
        ;
    }
}

/// Writing out the number that a numeral denotes gives the numeral back.
pub proof fn lemma_digits_of_value(ds: Seq<nat>, base: nat)
    requires
        base > 0,
        digits_below(ds, base),
    ensures
        digits_of(value_of(ds, base), base, ds.len()) == ds,
    decreases ds.len(),
{
    if ds.len() > 0 {
        let rest = ds.drop_last();
        assert(digits_below(rest, base)) by {
            assert forall|i: int| 0 <= i < rest.len() implies #[trigger] rest[i] < base by {
                assert(rest[i] == ds[i]);
            }
        }
        lemma_digits_of_value(rest, base);
        let v = value_of(rest, base);
        let d = ds.last();
        assert(d < base);
        lemma_fundamental_div_mod_converse(
            (v * base + d) as int,
            base as int,
            v as int,
            d as int,
        );
        assert(digits_of(value_of(ds, base), base, ds.len()) =~= rest.push(d));
        assert(rest.push(d) =~= ds);
    }
}

/// A leading part of a numeral denotes no more than the whole, in a base of
/// at least one.
pub proof fn lemma_value_prefix(ds: Seq<nat>, base: nat, k: nat)
    requires
        base >= 1,
        k <= ds.len(),
    ensures
        value_of(ds.take(k as int), base) <= value_of(ds, base),
    decreases ds.len(),
{
    if k < ds.len() {
        let rest = ds.drop_last();
        lemma_value_prefix(rest, base, k);
        assert(rest.take(k as int) =~= ds.take(k as int));
        let v = value_of(rest, base);
        assert(v <= v * base + ds.last()) by (nonlinear_arith)
            requires
                base >= 1,
        ;
    } else {
        assert(ds.take(k as int) =~= ds);
    }
}

/// Appending one digit multiplies by the base and adds the digit.
pub proof fn lemma_value_take_step(ds: Seq<nat>, base: nat, k: nat)
    requires
        k < ds.len(),
    ensures
        value_of(ds.take((k + 1) as int), base) == value_of(ds.take(k as int), base) * base + ds[k as int],
{
    assert(ds.take((k + 1) as int).drop_last() =~= ds.take(k as int));
}

} // verus!
