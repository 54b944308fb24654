//! Decentralized random selection: deriving unbiased index selections from
//! per-participant contributed values, without a trusted randomness source.
//!
//! A single shared value is the bitwise XOR of all contributions; XOR is
//! commutative and associative, so the result does not depend on the order
//! in which contributions arrive.  Reducing the XOR modulo the population
//! size is unbiased only when that size is a power of two, so the power-of-
//! two constraint is validated, not merely documented.  Unique selections
//! are obtained by linear probing (forward scan with wraparound) from the
//! reduced value.

use vstd::prelude::*;

use crate::Error;

verus! {

/// Whether `n` is a power of two: `n` is nonzero and clearing the lowest
/// set bit (`n & (n - 1)`) leaves nothing.
pub open spec fn is_power_of_two(n: usize) -> bool {
    n != 0 && n & ((n - 1) as usize) == 0
}

/// The bit test validates exactly the powers of two: clearing the lowest
/// set bit leaves nothing precisely when `n` is `2^m` for some `m`.
pub proof fn lemma_is_power_of_two_correct(n: usize)
    ensures
        is_power_of_two(n) <==> vstd::arithmetic::power2::is_pow2(n as int),
    decreases n,
{
    reveal(vstd::arithmetic::power2::is_pow2);
    if n == 1 {
        assert(1usize & 0usize == 0) by (bit_vector);
    } else if n >= 2 {
        lemma_is_power_of_two_correct(n / 2);
        assert((n & ((n - 1) as usize) == 0) == (n % 2 == 0 && ((n / 2) & ((n / 2 - 1) as usize)
            == 0))) by (bit_vector)
            requires
                n >= 2,
        ;
    }
}

/// Bitwise XOR of all values in the sequence, folded in order.
pub open spec fn xor_fold(s: Seq<u128>) -> u128
    decreases s.len(),
{
    if s.len() == 0 {
        0u128
    } else {
        xor_fold(s.drop_last()) ^ s.last()
    }
}

/// Removing any one element and folding it back in leaves the XOR
/// reduction unchanged.
proof fn lemma_xor_fold_remove(s: Seq<u128>, i: int)
    requires
        0 <= i < s.len(),
    ensures
        xor_fold(s) == xor_fold(s.remove(i)) ^ s[i],
    decreases s.len(),
{
    if i == s.len() - 1 {
        assert(s.remove(i) =~= s.drop_last());
        assert(xor_fold(s) == xor_fold(s.drop_last()) ^ s.last());
    } else {
        let dl = s.drop_last();
        lemma_xor_fold_remove(dl, i);
        assert(s.remove(i).drop_last() =~= dl.remove(i));
        assert(s.remove(i).last() == s.last());
        let a = xor_fold(dl.remove(i));
        let b = dl[i];
        let c = s.last();
        assert((a ^ b) ^ c == (a ^ c) ^ b) by (bit_vector);
    }
}

/// Law: the XOR reduction is order-independent.  Any two sequences holding
/// the same values with the same multiplicities (in particular, any
/// permutation of one another) fold to the identical result, so
/// contributors need no ordering protocol to agree on the derived value.
pub proof fn lemma_xor_fold_permutation(a: Seq<u128>, b: Seq<u128>)
    requires
        a.to_multiset() == b.to_multiset(),
    ensures
        xor_fold(a) == xor_fold(b),
    decreases a.len(),
{
    a.to_multiset_ensures();
    b.to_multiset_ensures();
    if a.len() == 0 {
        assert(b.len() == 0);
    } else {
        let x = a.last();
        assert(a.contains(x));
        assert(b.to_multiset().count(x) > 0);
        assert(b.contains(x));
        let j = choose|j: int| 0 <= j < b.len() && b[j] == x;
        lemma_xor_fold_remove(b, j);
        assert(a.remove(a.len() - 1) =~= a.drop_last());
        assert(a.drop_last().to_multiset() == a.to_multiset().remove(x));
        assert(b.remove(j).to_multiset() == b.to_multiset().remove(x));
        lemma_xor_fold_permutation(a.drop_last(), b.remove(j));
    }
}

/// When single-value derivation accepts its input: a non-empty value list
/// whose length matches the declared power-of-two population size.
pub open spec fn one_rand_valid(values: Seq<u128>, n: usize) -> bool {
    &&& values.len() > 0
    &&& n != 0
    &&& values.len() == n
    &&& is_power_of_two(n)
}

/// Derives one shared random value as the XOR of all contributed values.
///
/// The declared count `n` must match the number of values and be a power
/// of two; on success `*out` holds the XOR of every entry of `values`.
pub fn get_one_dd_rand_num(values: &Vec<u128>, n: usize, out: &mut u128) -> (r: Result<
    (),
    Error,
>)
    ensures
        r is Ok <==> one_rand_valid(values@, n),
        r is Ok ==> *final(out) == xor_fold(values@),
        r is Err ==> r == Err::<(), Error>(Error::InvalidInput) && *final(out) == *old(out),
{
    if values.len() == 0 || n == 0 {
        return Err(Error::InvalidInput);
    }
    if values.len() != n {
        return Err(Error::InvalidInput);
    }
    if n & (n - 1) != 0 {
        return Err(Error::InvalidInput);
    }
    let mut result: u128 = 0;
    let mut i: usize = 0;
    while i < n
        invariant
            i <= n,
            n == values@.len(),
            result == xor_fold(values@.take(i as int)),
        decreases n - i,
    {
        proof {
            assert(values@.take(i + 1).drop_last() =~= values@.take(i as int));
        }
        result = result ^ values[i];
        i = i + 1;
    }
    proof {
        assert(values@.take(n as int) =~= values@);
    }
    *out = result;
    Ok(())
}

/// XOR across all groups of the contribution each group supplied for
/// position `i`.
pub open spec fn xor_column(groups: Seq<Seq<u128>>, i: int) -> u128
    decreases groups.len(),
{
    if groups.len() == 0 {
        0u128
    } else {
        xor_column(groups.drop_last(), i) ^ groups.last()[i]
    }
}

/// Where probing for output position `i` starts: the XOR over all groups
/// of their contribution for that position, reduced modulo `n`.
pub open spec fn slot_start(groups: Seq<Seq<u128>>, n: usize, i: int) -> usize
    recommends
        n > 0,
{
    (xor_column(groups, i) % (n as u128)) as usize
}

/// An index is inadmissible when it was already selected or is excluded.
pub open spec fn is_taken(prev: Seq<usize>, excluded: Seq<usize>, idx: usize) -> bool {
    prev.contains(idx) || excluded.contains(idx)
}

/// Linear probing: starting at `off`, step forward (wrapping modulo `n`)
/// until an admissible index is found; `fuel` bounds how many further
/// steps may be taken before the probe gives up.
pub open spec fn probe(
    prev: Seq<usize>,
    excluded: Seq<usize>,
    off: usize,
    n: usize,
    fuel: nat,
) -> Option<usize>
    recommends
        n > 0,
        off < n,
    decreases fuel,
{
    if !is_taken(prev, excluded, off) {
        Some(off)
    } else if fuel == 0 {
        None
    } else {
        probe(prev, excluded, (((off + 1) as int) % (n as int)) as usize, n, (fuel - 1) as nat)
    }
}

/// The selected indices for the first `slots` output positions: each
/// position probes from its own XOR-derived start, skipping indices chosen
/// for earlier positions and excluded indices.  `None` when probing for
/// some position completes a full cycle without an admissible index.
pub open spec fn select_indices(
    groups: Seq<Seq<u128>>,
    n: usize,
    excluded: Seq<usize>,
    slots: int,
) -> Option<Seq<usize>>
    recommends
        n > 0,
    decreases slots,
{
    if slots <= 0 {
        Some(Seq::empty())
    } else {
        match select_indices(groups, n, excluded, slots - 1) {
            None => None,
            Some(prev) => match probe(
                prev,
                excluded,
                slot_start(groups, n, slots - 1),
                n,
                (n - 1) as nat,
            ) {
                None => None,
                Some(x) => Some(prev.push(x)),
            },
        }
    }
}

/// When k-of-n selection accepts its input: `n` groups of `k` contributions
/// each, both within their declared bounds, at most as many selections as
/// participants, a power-of-two population, and an output buffer of length
/// `k`.
pub open spec fn selection_valid(
    groups: Seq<Seq<u128>>,
    n: usize,
    k: usize,
    out_len: nat,
) -> bool {
    &&& groups.len() > 0
    &&& n != 0
    &&& k != 0
    &&& n <= 100000
    &&& k <= 1000
    &&& is_power_of_two(n)
    &&& k <= n
    &&& groups.len() == n
    &&& out_len == k
    &&& forall|j: int| 0 <= j < groups.len() ==> (#[trigger] groups[j]).len() == k
}

/// Every whitelisted index lies in `[0, n)`.
pub open spec fn whitelist_valid(whitelist: Seq<usize>, n: usize) -> bool {
    forall|j: int| 0 <= j < whitelist.len() ==> #[trigger] whitelist[j] < n
}

/// Whether `idx` appears in the whitelist.
fn is_whitelisted(idx: usize, whitelist: &Vec<usize>) -> (r: bool)
    ensures
        r == whitelist@.contains(idx),
{
    let mut j: usize = 0;
    while j < whitelist.len()
        invariant
            j <= whitelist@.len(),
            forall|p: int| 0 <= p < j ==> #[trigger] whitelist@[p] != idx,
        decreases whitelist@.len() - j,
    {
        if whitelist[j] == idx {
            return true;
        }
        j = j + 1;
    }
    false
}

/// Whether `idx` appears among the first `count` entries of `prev`.
fn contains_prefix(prev: &Vec<usize>, count: usize, idx: usize) -> (r: bool)
    requires
        count <= prev@.len(),
    ensures
        r == prev@.take(count as int).contains(idx),
{
    let ghost pre = prev@.take(count as int);
    let mut j: usize = 0;
    while j < count
        invariant
            j <= count,
            count <= prev@.len(),
            pre == prev@.take(count as int),
            forall|p: int| 0 <= p < j ==> #[trigger] pre[p] != idx,
        decreases count - j,
    {
        if prev[j] == idx {
            assert(pre[j as int] == idx);
            return true;
        }
        j = j + 1;
    }
    false
}

/// Finds the first admissible index, probing forward from `start` with
/// wraparound; examines at most `n` candidates, as the probe spec allows
/// `n - 1` steps beyond the starting candidate.
fn probe_slot(prev: &Vec<usize>, count: usize, excluded: &Vec<usize>, start: usize, n: usize) -> (r:
    Option<usize>)
    requires
        n > 0,
        start < n,
        count <= prev@.len(),
    ensures
        r == probe(prev@.take(count as int), excluded@, start, n, (n - 1) as nat),
        r is Some ==> r.unwrap() < n,
{
    let ghost pre = prev@.take(count as int);
    let mut off: usize = start;
    let mut tries: usize = 0;
    while tries < n
        invariant
            n > 0,
            off < n,
            tries <= n,
            count <= prev@.len(),
            pre == prev@.take(count as int),
            probe(pre, excluded@, start, n, (n - 1) as nat) == (if tries < n {
                probe(pre, excluded@, off, n, (n - 1 - tries) as nat)
            } else {
                None::<usize>
            }),
        decreases n - tries,
    {
        let in_prev = contains_prefix(prev, count, off);
        let in_excluded = is_whitelisted(off, excluded);
        if !in_prev && !in_excluded {
            return Some(off);
        }
        proof {
            vstd::arithmetic::div_mod::lemma_mod_bound((off + 1) as int, n as int);
        }
        off = (off + 1) % n;
        tries = tries + 1;
    }
    None
}

/// A successful probe yields an in-range, admissible index.
proof fn lemma_probe_some(prev: Seq<usize>, excluded: Seq<usize>, off: usize, n: usize, fuel: nat)
    requires
        n > 0,
        off < n,
        probe(prev, excluded, off, n, fuel) is Some,
    ensures
        probe(prev, excluded, off, n, fuel).unwrap() < n,
        !is_taken(prev, excluded, probe(prev, excluded, off, n, fuel).unwrap()),
    decreases fuel,
{
    if is_taken(prev, excluded, off) {
        let next = (((off + 1) as int) % (n as int)) as usize;
        vstd::arithmetic::div_mod::lemma_mod_bound((off + 1) as int, n as int);
        lemma_probe_some(prev, excluded, next, n, (fuel - 1) as nat);
    }
}

/// A failed probe means every candidate it examined was taken: all of
/// `(off + s) % n` for `s` up to the fuel.
proof fn lemma_probe_none_all_taken(
    prev: Seq<usize>,
    excluded: Seq<usize>,
    off: usize,
    n: usize,
    fuel: nat,
)
    requires
        n > 0,
        off < n,
        probe(prev, excluded, off, n, fuel) is None,
    ensures
        forall|s: int|
            0 <= s <= fuel ==> #[trigger] is_taken(
                prev,
                excluded,
                (((off + s) as int) % (n as int)) as usize,
            ),
    decreases fuel,
{
    vstd::arithmetic::div_mod::lemma_small_mod(off as nat, n as nat);
    assert(is_taken(prev, excluded, ((off as int) % (n as int)) as usize));
    if fuel > 0 {
        let next = (((off + 1) as int) % (n as int)) as usize;
        vstd::arithmetic::div_mod::lemma_mod_bound((off + 1) as int, n as int);
        lemma_probe_none_all_taken(prev, excluded, next, n, (fuel - 1) as nat);
        assert forall|s: int|
            1 <= s <= fuel implies #[trigger] is_taken(
            prev,
            excluded,
            (((off + s) as int) % (n as int)) as usize,
        ) by {
            let s1 = s - 1;
            assert(is_taken(prev, excluded, (((next + s1) as int) % (n as int)) as usize));
            vstd::arithmetic::div_mod::lemma_add_mod_noop_right(s1, (off + 1) as int, n as int);
            assert((next + s1) % (n as int) == (off + s) % (n as int));
        }
    }
}

/// Wrapping forward steps from any start reach every index below `n`:
/// returns the step count at which `j` is examined.
proof fn lemma_probe_covers(off: usize, n: usize, j: usize) -> (s: int)
    requires
        n > 0,
        off < n,
        j < n,
    ensures
        0 <= s < n,
        (((off + s) as int) % (n as int)) as usize == j,
{
    vstd::arithmetic::div_mod::lemma_small_mod(j as nat, n as nat);
    if j >= off {
        j - off
    } else {
        vstd::arithmetic::div_mod::lemma_mod_multiples_vanish(1, j as int, n as int);
        j + n - off
    }
}

/// Pigeonhole: a sequence containing every index below `n` has at least
/// `n` entries.
proof fn lemma_contains_range_len(prev: Seq<usize>, n: usize)
    requires
        forall|j: usize| 0 <= j < n ==> prev.contains(j),
    ensures
        prev.len() >= n,
    decreases n,
{
    if n > 0 {
        let last: usize = (n - 1) as usize;
        assert(prev.contains(last));
        let p = choose|p: int| 0 <= p < prev.len() && prev[p] == last;
        let rest = prev.remove(p);
        assert forall|j: usize| 0 <= j < n - 1 implies rest.contains(j) by {
            assert(prev.contains(j));
            let q = choose|q: int| 0 <= q < prev.len() && prev[q] == j;
            assert(q != p) by {
                assert(prev[p] == last && prev[q] == j && j != last);
            }
            if q < p {
                assert(rest[q] == j);
            } else {
                assert(rest[q - 1] == j);
            }
        }
        lemma_contains_range_len(rest, (n - 1) as usize);
    }
}

/// With nothing excluded and fewer prior selections than participants, a
/// full-cycle probe always finds an admissible index.
proof fn lemma_probe_succeeds(prev: Seq<usize>, excluded: Seq<usize>, off: usize, n: usize)
    requires
        n > 0,
        off < n,
        excluded.len() == 0,
        prev.len() < n,
    ensures
        probe(prev, excluded, off, n, (n - 1) as nat) is Some,
{
    if probe(prev, excluded, off, n, (n - 1) as nat) is None {
        lemma_probe_none_all_taken(prev, excluded, off, n, (n - 1) as nat);
        assert forall|j: usize| 0 <= j < n implies prev.contains(j) by {
            let s = lemma_probe_covers(off, n, j);
            assert(is_taken(prev, excluded, (((off + s) as int) % (n as int)) as usize));
        }
        lemma_contains_range_len(prev, n);
    }
}

/// Properties of a successful selection: one entry per slot, all indices
/// in range, pairwise distinct, and none excluded.
proof fn lemma_select_props(groups: Seq<Seq<u128>>, n: usize, excluded: Seq<usize>, slots: int)
    requires
        n > 0,
        slots >= 0,
        select_indices(groups, n, excluded, slots) is Some,
    ensures
        ({
            let s = select_indices(groups, n, excluded, slots).unwrap();
            &&& s.len() == slots
            &&& forall|i: int| 0 <= i < slots ==> #[trigger] s[i] < n
            &&& forall|i: int, j: int| 0 <= i < j < slots ==> s[i] != s[j]
            &&& forall|i: int| 0 <= i < slots ==> !excluded.contains(#[trigger] s[i])
        }),
    decreases slots,
{
    if slots > 0 {
        lemma_select_props(groups, n, excluded, slots - 1);
        let prev = select_indices(groups, n, excluded, slots - 1).unwrap();
        let start = slot_start(groups, n, slots - 1);
        vstd::arithmetic::div_mod::lemma_mod_bound(xor_column(groups, slots - 1) as int, n as int);
        lemma_probe_some(prev, excluded, start, n, (n - 1) as nat);
        let x = probe(prev, excluded, start, n, (n - 1) as nat).unwrap();
        let s = select_indices(groups, n, excluded, slots).unwrap();
        assert(s == prev.push(x));
        assert(!prev.contains(x));
        assert(forall|i: int| 0 <= i < slots - 1 ==> s[i] == prev[i]);
        assert(s[slots - 1] == x);
    }
}

/// Once selection fails for some number of slots, it fails for any larger
/// number.
proof fn lemma_select_none_mono(groups: Seq<Seq<u128>>, n: usize, excluded: Seq<usize>, a: int, b: int)
    requires
        0 <= a <= b,
        select_indices(groups, n, excluded, a) is None,
    ensures
        select_indices(groups, n, excluded, b) is None,
    decreases b - a,
{
    if a < b {
        lemma_select_none_mono(groups, n, excluded, a, b - 1);
    }
}

/// With nothing excluded, selection of at most `n` slots always succeeds.
proof fn lemma_select_succeeds(groups: Seq<Seq<u128>>, n: usize, excluded: Seq<usize>, slots: int)
    requires
        n > 0,
        excluded.len() == 0,
        0 <= slots <= n,
    ensures
        select_indices(groups, n, excluded, slots) is Some,
    decreases slots,
{
    if slots > 0 {
        lemma_select_succeeds(groups, n, excluded, slots - 1);
        let prev = select_indices(groups, n, excluded, slots - 1).unwrap();
        lemma_select_props(groups, n, excluded, slots - 1);
        let start = slot_start(groups, n, slots - 1);
        vstd::arithmetic::div_mod::lemma_mod_bound(xor_column(groups, slots - 1) as int, n as int);
        lemma_probe_succeeds(prev, excluded, start, n);
    }
}

/// Selects `k` distinct participant indices out of `n`, never choosing a
/// whitelisted (excluded) index.
///
/// Each output position probes forward (wrapping modulo `n`) from its
/// XOR-derived start until it finds an index that is neither already
/// selected nor whitelisted; if a full cycle of `n` candidates is
/// exhausted for some position, the call fails with `CalculationFailed`
/// (earlier output positions may then already have been overwritten, but
/// the buffer length is unchanged).
pub fn get_k_dd_rand_num_with_whitelist(
    groups: &Vec<Vec<u128>>,
    n: usize,
    k: usize,
    whitelist: &Vec<usize>,
    output: &mut Vec<usize>,
) -> (r: Result<(), Error>)
    ensures
        r is Ok <==> (selection_valid(groups.deep_view(), n, k, old(output)@.len())
            && whitelist_valid(whitelist@, n) && select_indices(
            groups.deep_view(),
            n,
            whitelist@,
            k as int,
        ) is Some),
        !(selection_valid(groups.deep_view(), n, k, old(output)@.len()) && whitelist_valid(
            whitelist@,
            n,
        )) ==> r == Err::<(), Error>(Error::InvalidInput) && final(output)@ == old(output)@,
        (selection_valid(groups.deep_view(), n, k, old(output)@.len()) && whitelist_valid(
            whitelist@,
            n,
        ) && select_indices(groups.deep_view(), n, whitelist@, k as int) is None) ==> r == Err::<
            (),
            Error,
        >(Error::CalculationFailed),
        final(output)@.len() == old(output)@.len(),
        r is Ok ==> Some(final(output)@) == select_indices(
            groups.deep_view(),
            n,
            whitelist@,
            k as int,
        ),
        r is Ok ==> final(output)@.len() == k,
        r is Ok ==> forall|i: int| 0 <= i < k ==> #[trigger] final(output)@[i] < n,
        r is Ok ==> forall|i: int, j: int|
            0 <= i < j < k ==> final(output)@[i] != final(output)@[j],
        r is Ok ==> forall|i: int| 0 <= i < k ==> !whitelist@.contains(#[trigger] final(output)@[i]),
{
    let ghost gv = groups.deep_view();
    if groups.len() == 0 || n == 0 || k == 0 {
        return Err(Error::InvalidInput);
    }
    if n > 100000 || k > 1000 {
        return Err(Error::InvalidInput);
    }
    if n & (n - 1) != 0 {
        return Err(Error::InvalidInput);
    }
    if k > n {
        return Err(Error::InvalidInput);
    }
    if groups.len() != n {
        return Err(Error::InvalidInput);
    }
    if output.len() != k {
        return Err(Error::InvalidInput);
    }
    let mut g: usize = 0;
    while g < n
        invariant
            g <= n,
            n == groups@.len(),
            gv == groups.deep_view(),
            forall|p: int| 0 <= p < g ==> (#[trigger] gv[p]).len() == k,
        decreases n - g,
    {
        proof {
            assert(gv[g as int] =~= groups@[g as int]@);
        }
        if groups[g].len() != k {
            return Err(Error::InvalidInput);
        }
        g = g + 1;
    }
    let mut w: usize = 0;
    while w < whitelist.len()
        invariant
            w <= whitelist@.len(),
            forall|p: int| 0 <= p < w ==> #[trigger] whitelist@[p] < n,
        decreases whitelist@.len() - w,
    {
        if whitelist[w] >= n {
            return Err(Error::InvalidInput);
        }
        w = w + 1;
    }
    let mut i: usize = 0;
    while i < k
        invariant
            i <= k,
            n > 0,
            k <= n,
            n == groups@.len(),
            gv == groups.deep_view(),
            forall|p: int| 0 <= p < n ==> (#[trigger] gv[p]).len() == k,
            output@.len() == k,
            old(output)@.len() == k,
            selection_valid(gv, n, k, old(output)@.len()),
            whitelist_valid(whitelist@, n),
            select_indices(gv, n, whitelist@, i as int) == Some(output@.take(i as int)),
        decreases k - i,
    {
        let mut acc: u128 = 0;
        let mut g: usize = 0;
        while g < n
            invariant
                g <= n,
                i < k,
                n == groups@.len(),
                gv == groups.deep_view(),
                forall|p: int| 0 <= p < n ==> (#[trigger] gv[p]).len() == k,
                acc == xor_column(gv.take(g as int), i as int),
            decreases n - g,
        {
            proof {
                assert(gv[g as int] =~= groups@[g as int]@);
                assert(gv.take(g + 1).drop_last() =~= gv.take(g as int));
                assert(gv.take(g + 1).last() == gv[g as int]);
            }
            acc = acc ^ groups[g][i];
            g = g + 1;
        }
        proof {
            assert(gv.take(n as int) =~= gv);
            vstd::arithmetic::div_mod::lemma_mod_bound(acc as int, n as int);
        }
        let start = (acc % (n as u128)) as usize;
        assert(start == slot_start(gv, n, i as int));
        match probe_slot(output, i, whitelist, start, n) {
            Some(x) => {
                output.set(i, x);
                proof {
                    assert(output@.take(i + 1) =~= output@.take(i as int).push(x));
                }
                i = i + 1;
            },
            None => {
                proof {
                    assert(select_indices(gv, n, whitelist@, i + 1) is None);
                    lemma_select_none_mono(gv, n, whitelist@, i + 1, k as int);
                }
                return Err(Error::CalculationFailed);
            },
        }
    }
    proof {
        assert(output@.take(k as int) =~= output@);
        lemma_select_props(gv, n, whitelist@, k as int);
    }
    Ok(())
}

/// Selects `k` distinct participant indices out of `n` from `n` groups of
/// `k` contributed values each.
///
/// Output position `i` starts from the XOR over all groups of their `i`-th
/// contribution, reduced modulo `n`, and probes forward (wrapping) past
/// indices chosen for earlier positions.  With nothing excluded, at most
/// `n` selections can never exhaust a probe cycle, so validation is the
/// only way this operation fails.
pub fn get_k_dd_rand_num(
    groups: &Vec<Vec<u128>>,
    n: usize,
    k: usize,
    output: &mut Vec<usize>,
) -> (r: Result<(), Error>)
    ensures
        r is Ok <==> selection_valid(groups.deep_view(), n, k, old(output)@.len()),
        r is Err ==> r == Err::<(), Error>(Error::InvalidInput) && final(output)@ == old(output)@,
        final(output)@.len() == old(output)@.len(),
        r is Ok ==> Some(final(output)@) == select_indices(
            groups.deep_view(),
            n,
            Seq::<usize>::empty(),
            k as int,
        ),
        r is Ok ==> final(output)@.len() == k,
        r is Ok ==> forall|i: int| 0 <= i < k ==> #[trigger] final(output)@[i] < n,
        r is Ok ==> forall|i: int, j: int|
            0 <= i < j < k ==> final(output)@[i] != final(output)@[j],
{
    let whitelist: Vec<usize> = Vec::new();
    proof {
        assert(whitelist@ =~= Seq::<usize>::empty());
        if selection_valid(groups.deep_view(), n, k, old(output)@.len()) {
            lemma_select_succeeds(groups.deep_view(), n, whitelist@, k as int);
        }
    }
    get_k_dd_rand_num_with_whitelist(groups, n, k, &whitelist, output)
}

/// When the three-dimensional variant accepts its input: non-empty values
/// matching the declared count, and a power-of-two range size `k`.
pub open spec fn one_rand_3d_valid(values: Seq<u128>, n: usize, k: usize) -> bool {
    &&& values.len() > 0
    &&& n != 0
    &&& k != 0
    &&& values.len() == n
    &&& is_power_of_two(k)
}

/// Derives one shared random value as the XOR of all contributed values,
/// for a draw over a separately declared range of size `k`.
///
/// Here the power-of-two requirement falls on the range size `k` rather
/// than on the number of contributors; the derived value is the same XOR
/// reduction.
pub fn get_one_dd_3d_rand_num(values: &Vec<u128>, n: usize, k: usize, out: &mut u128) -> (r: Result<
    (),
    Error,
>)
    ensures
        r is Ok <==> one_rand_3d_valid(values@, n, k),
        r is Ok ==> *final(out) == xor_fold(values@),
        r is Err ==> r == Err::<(), Error>(Error::InvalidInput) && *final(out) == *old(out),
{
    if values.len() == 0 || n == 0 || k == 0 {
        return Err(Error::InvalidInput);
    }
    if values.len() != n {
        return Err(Error::InvalidInput);
    }
    if k & (k - 1) != 0 {
        return Err(Error::InvalidInput);
    }
    let mut result: u128 = 0;
    let mut i: usize = 0;
    while i < n
        invariant
            i <= n,
            n == values@.len(),
            result == xor_fold(values@.take(i as int)),
        decreases n - i,
    {
        proof {
            assert(values@.take(i + 1).drop_last() =~= values@.take(i as int));
        }
        result = result ^ values[i];
        i = i + 1;
    }
    proof {
        assert(values@.take(n as int) =~= values@);
    }
    *out = result;
    Ok(())
}

} // verus!
