//! How the energy handed to a collision is shared among its contestants.

use vstd::prelude::*;
use vstd::relations::{sorted_by, total_ordering};
use vstd::seq_lib::lemma_sorted_unique;
use crate::field::{
    Specimen,
    energy_sum,
    lemma_energy_sum_push,
    lemma_energy_sum_concat,
    lemma_energy_sum_prefix,
};

verus! {

/// Orders specimens by energy, weakest first.
pub open spec fn by_energy() -> spec_fn(Specimen, Specimen) -> bool {
    |a: Specimen, b: Specimen| a.energy <= b.energy
}

/// The contestants ordered by energy, weakest first.
pub open spec fn sorted_by_energy(s: Seq<Specimen>) -> Seq<Specimen> {
    s.sort_by(by_energy())
}

pub open spec fn energies_ascending(s: Seq<Specimen>) -> bool {
    forall|i: int, j: int| 0 <= i < j < s.len() ==> s[i].energy <= s[j].energy
}

/// A rule for sharing energy among the contestants of one collision.
#[derive(Clone, Copy, Debug, PartialEq, Eq, Structural)]
pub enum SplitPolicy {
    /// The weakest contestant receives everything.
    WeakTakesAll,
    /// The strongest contestant receives everything.
    StrongTakesAll,
    /// Each contestant receives the same share.
    Equal,
    /// Weakest first, each contestant receives up to twice the equal share
    /// until the energy runs out.
    PoorHalf,
}

/// `s` with energy `e` added to the specimen at `i`.
pub open spec fn add_at(s: Seq<Specimen>, i: int, e: nat) -> Seq<Specimen> {
    s.update(i, Specimen { energy: (s[i].energy + e) as u64 })
}

/// What `policy` makes of contestants `v` sharing `avail`: the contestants
/// afterwards, in the order they are to be placed, and the energy not handed
/// out.
pub open spec fn split_spec(policy: SplitPolicy, v: Seq<Specimen>, avail: nat) -> (
    Seq<Specimen>,
    nat,
) {
    let n = v.len();
    if n == 0 {
        (v, avail)
    } else {
        match policy {
            SplitPolicy::WeakTakesAll => (add_at(sorted_by_energy(v), 0, avail), 0),
            SplitPolicy::StrongTakesAll => (add_at(sorted_by_energy(v), n - 1, avail), 0),
            SplitPolicy::Equal => {
                let part = avail / n;
                (
                    Seq::new(n, |k: int| Specimen { energy: (v[k].energy + part) as u64 }),
                    (avail - n * part) as nat,
                )
            },
            SplitPolicy::PoorHalf => {
                let part = 2 * avail / n;
                let s = sorted_by_energy(v);
                (
                    Seq::new(n, |k: int| Specimen { energy: (s[k].energy + poor_gain(avail, part, k)) as u64 }),
                    poor_rest(avail, part, n as int),
                )
            },
        }
    }
}

/// Energy left after `k` contestants each took up to `part` of `avail`.
pub open spec fn poor_rest(avail: nat, part: nat, k: int) -> nat {
    if avail >= k * part {
        (avail - k * part) as nat
    } else {
        0
    }
}

/// What the contestant at position `k` receives when each takes up to `part`.
pub open spec fn poor_gain(avail: nat, part: nat, k: int) -> nat {
    if poor_rest(avail, part, k) < part {
        poor_rest(avail, part, k)
    } else {
        part
    }
}

proof fn lemma_by_energy_total()
    ensures
        total_ordering(by_energy()),
{
    assert forall|a: Specimen, b: Specimen|
        #[trigger] (by_energy())(a, b) && #[trigger] (by_energy())(b, a) implies a == b by {
        assert(a.energy == b.energy);
    }
}

proof fn lemma_energy_sum_update(s: Seq<Specimen>, i: int, x: Specimen)
    requires
        0 <= i < s.len(),
    ensures
        energy_sum(s.update(i, x)) + s[i].energy == energy_sum(s) + x.energy,
    decreases s.len(),
{
    let u = s.update(i, x);
    if i == s.len() - 1 {
        assert(u.drop_last() == s.drop_last());
    } else {
        assert(u.drop_last() == s.drop_last().update(i, x));
        lemma_energy_sum_update(s.drop_last(), i, x);
    }
}

proof fn lemma_energy_sum_bounds(s: Seq<Specimen>, i: int)
    requires
        0 <= i < s.len(),
    ensures
        s[i].energy <= energy_sum(s),
    decreases s.len(),
{
    if i < s.len() - 1 {
        lemma_energy_sum_bounds(s.drop_last(), i);
    }
}

/// The contestants ordered by energy, weakest first.
pub fn sort_by_energy(v: &Vec<Specimen>) -> (r: Vec<Specimen>)
    ensures
        r@ == sorted_by_energy(v@),
        energy_sum(r@) == energy_sum(v@),
        r@.to_multiset() == v@.to_multiset(),
{
    broadcast use vstd::seq_lib::group_to_multiset_ensures;

    let mut r: Vec<Specimen> = Vec::new();
    let mut i: usize = 0;
    while i < v.len()
        invariant
            i <= v.len(),
            energies_ascending(r@),
            r@.to_multiset() == v@.take(i as int).to_multiset(),
            energy_sum(r@) == energy_sum(v@.take(i as int)),
        decreases v.len() - i,
    {
        let e = v[i];
        let mut p: usize = 0;
        while p < r.len() && r[p].energy <= e.energy
            invariant
                p <= r.len(),
                forall|q: int| 0 <= q < p ==> r@[q].energy <= e.energy,
            decreases r.len() - p,
        {
            p += 1;
        }
        let ghost old_r = r@;
        r.insert(p, e);
        proof {
            assert(r@ == old_r.take(p as int) + seq![e] + old_r.skip(p as int));
            lemma_energy_sum_concat(old_r.take(p as int) + seq![e], old_r.skip(p as int));
            lemma_energy_sum_concat(old_r.take(p as int), seq![e]);
            lemma_energy_sum_concat(old_r.take(p as int), old_r.skip(p as int));
            assert(old_r.take(p as int) + old_r.skip(p as int) == old_r);
            assert(seq![e] == Seq::<Specimen>::empty().push(e));
            lemma_energy_sum_push(Seq::<Specimen>::empty(), e);
            assert(v@.take(i + 1) == v@.take(i as int).push(e));
            lemma_energy_sum_push(v@.take(i as int), e);
            vstd::seq_lib::to_multiset_insert(old_r, p as int, e);
            vstd::seq_lib::to_multiset_build(v@.take(i as int), e);
            assert(r@ == old_r.insert(p as int, e));
        }
        i += 1;
    }
    proof {
        assert(v@.take(v.len() as int) == v@);
        lemma_by_energy_total();
        v@.lemma_sort_by_ensures(by_energy());
        assert(sorted_by(r@, by_energy()));
        lemma_sorted_unique(r@, v@.sort_by(by_energy()), by_energy());
    }
    r
}

/// Shares `avail` among the contestants `v` as `policy` says.
pub fn split_energy(policy: SplitPolicy, v: &Vec<Specimen>, avail: u64) -> (r: (
    Vec<Specimen>,
    u64,
))
    requires
        energy_sum(v@) + avail <= u64::MAX,
    ensures
        r.0@ == split_spec(policy, v@, avail as nat).0,
        r.1 == split_spec(policy, v@, avail as nat).1,
        r.0.len() == v.len(),
        energy_sum(r.0@) + r.1 == energy_sum(v@) + avail,
{
    if v.len() == 0 {
        return (v.clone(), avail);
    }
    match policy {
        SplitPolicy::WeakTakesAll => split_energy_weak_takes_all(v, avail),
        SplitPolicy::StrongTakesAll => split_energy_strong_takes_all(v, avail),
        SplitPolicy::Equal => split_energy_equally(v, avail),
        SplitPolicy::PoorHalf => split_energy_poor_half(v, avail),
    }
}

/// The weakest contestant receives all of `avail`.
pub fn split_energy_weak_takes_all(v: &Vec<Specimen>, avail: u64) -> (r: (Vec<Specimen>, u64))
    requires
        energy_sum(v@) + avail <= u64::MAX,
    ensures
        r.0@ == split_spec(SplitPolicy::WeakTakesAll, v@, avail as nat).0,
        r.1 == split_spec(SplitPolicy::WeakTakesAll, v@, avail as nat).1,
        r.0.len() == v.len(),
        energy_sum(r.0@) + r.1 == energy_sum(v@) + avail,
{
    if v.len() == 0 {
        let empty: Vec<Specimen> = Vec::new();
        assert(empty@ == v@);
        return (empty, avail);
    }
    let mut sorted = sort_by_energy(v);
    proof {
        vstd::seq_lib::to_multiset_len(sorted@);
        vstd::seq_lib::to_multiset_len(v@);
        lemma_energy_sum_bounds(sorted@, 0);
    }
    let first = Specimen { energy: sorted[0].energy + avail };
    proof {
        lemma_energy_sum_update(sorted@, 0, first);
    }
    sorted.set(0, first);
    (sorted, 0)
}

/// The strongest contestant receives all of `avail`.
pub fn split_energy_strong_takes_all(v: &Vec<Specimen>, avail: u64) -> (r: (Vec<Specimen>, u64))
    requires
        energy_sum(v@) + avail <= u64::MAX,
    ensures
        r.0@ == split_spec(SplitPolicy::StrongTakesAll, v@, avail as nat).0,
        r.1 == split_spec(SplitPolicy::StrongTakesAll, v@, avail as nat).1,
        r.0.len() == v.len(),
        energy_sum(r.0@) + r.1 == energy_sum(v@) + avail,
{
    if v.len() == 0 {
        let empty: Vec<Specimen> = Vec::new();
        assert(empty@ == v@);
        return (empty, avail);
    }
    let mut sorted = sort_by_energy(v);
    proof {
        vstd::seq_lib::to_multiset_len(sorted@);
        vstd::seq_lib::to_multiset_len(v@);
    }
    let last_idx = sorted.len() - 1;
    proof {
        lemma_energy_sum_bounds(sorted@, last_idx as int);
    }
    let last = Specimen { energy: sorted[last_idx].energy + avail };
    proof {
        lemma_energy_sum_update(sorted@, last_idx as int, last);
    }
    sorted.set(last_idx, last);
    (sorted, 0)
}

/// Each contestant receives `avail / n`; the remainder is not handed out.
pub fn split_energy_equally(v: &Vec<Specimen>, avail: u64) -> (r: (Vec<Specimen>, u64))
    requires
        energy_sum(v@) + avail <= u64::MAX,
    ensures
        r.0@ == split_spec(SplitPolicy::Equal, v@, avail as nat).0,
        r.1 == split_spec(SplitPolicy::Equal, v@, avail as nat).1,
        r.0.len() == v.len(),
        energy_sum(r.0@) + r.1 == energy_sum(v@) + avail,
{
    if v.len() == 0 {
        let empty: Vec<Specimen> = Vec::new();
        assert(empty@ == v@);
        return (empty, avail);
    }
    let n = v.len();
    let part = avail / (n as u64);
    proof {
        assert(n * part <= avail) by (nonlinear_arith)
            requires
                part as int == avail as int / (n as int),
                n > 0,
        ;
    }
    let mut r: Vec<Specimen> = Vec::new();
    let mut i: usize = 0;
    while i < n
        invariant
            n == v.len(),
            n * part <= avail,
            energy_sum(v@) + avail <= u64::MAX,
            i <= n,
            r.len() == i,
            forall|k: int| 0 <= k < i ==> #[trigger] r@[k] == (Specimen { energy: (v@[k].energy + part) as u64 }),
            energy_sum(r@) == energy_sum(v@.take(i as int)) + i * part,
        decreases n - i,
    {
        proof {
            assert(v@.take(i + 1) == v@.take(i as int).push(v@[i as int]));
            lemma_energy_sum_push(v@.take(i as int), v@[i as int]);
            lemma_energy_sum_prefix(v@, i + 1);
            assert(i * part + part <= n * part) by (nonlinear_arith)
                requires
                    i < n,
            ;
        }
        let s = Specimen { energy: v[i].energy + part };
        proof {
            lemma_energy_sum_push(r@, s);
            assert((i + 1) * part == i * part + part) by (nonlinear_arith);
        }
        r.push(s);
        i += 1;
    }
    proof {
        assert(v@.take(n as int) == v@);
        assert(r@ == split_spec(SplitPolicy::Equal, v@, avail as nat).0);
    }
    (r, avail - (n as u64) * part)
}

/// Weakest first, each contestant receives up to `2 * avail / n` while any
/// of `avail` is left.
pub fn split_energy_poor_half(v: &Vec<Specimen>, avail: u64) -> (r: (Vec<Specimen>, u64))
    requires
        energy_sum(v@) + avail <= u64::MAX,
    ensures
        r.0@ == split_spec(SplitPolicy::PoorHalf, v@, avail as nat).0,
        r.1 == split_spec(SplitPolicy::PoorHalf, v@, avail as nat).1,
        r.0.len() == v.len(),
        energy_sum(r.0@) + r.1 == energy_sum(v@) + avail,
{
    if v.len() == 0 {
        let empty: Vec<Specimen> = Vec::new();
        assert(empty@ == v@);
        return (empty, avail);
    }
    let n = v.len();
    let sorted = sort_by_energy(v);
    proof {
        vstd::seq_lib::to_multiset_len(sorted@);
        vstd::seq_lib::to_multiset_len(v@);
    }
    let part: u128 = (avail as u128) * 2 / (n as u128);
    let ghost gpart: nat = part as nat;
    let mut available: u64 = avail;
    let mut r: Vec<Specimen> = Vec::new();
    let mut i: usize = 0;
    while i < n
        invariant
            n == v.len(),
            n == sorted.len(),
            energy_sum(sorted@) == energy_sum(v@),
            energy_sum(v@) + avail <= u64::MAX,
            gpart == part,
            i <= n,
            r.len() == i,
            available == poor_rest(avail as nat, gpart, i as int),
            forall|k: int|
                0 <= k < i ==> #[trigger] r@[k] == (Specimen {
                    energy: (sorted@[k].energy + poor_gain(avail as nat, gpart, k)) as u64,
                }),
            energy_sum(r@) + available == energy_sum(sorted@.take(i as int)) + avail,
        decreases n - i,
    {
        proof {
            assert(sorted@.take(i + 1) == sorted@.take(i as int).push(sorted@[i as int]));
            lemma_energy_sum_push(sorted@.take(i as int), sorted@[i as int]);
            lemma_energy_sum_prefix(sorted@, i + 1);
            lemma_poor_step(avail as nat, gpart, i as int);
        }
        let gain: u64 = if part < available as u128 {
            part as u64
        } else {
            available
        };
        let s = Specimen { energy: sorted[i].energy + gain };
        proof {
            lemma_energy_sum_push(r@, s);
        }
        r.push(s);
        available = available - gain;
        i += 1;
    }
    proof {
        assert(sorted@.take(n as int) == sorted@);
        assert(r@ == split_spec(SplitPolicy::PoorHalf, v@, avail as nat).0);
    }
    (r, available)
}

proof fn lemma_poor_step(avail: nat, part: nat, k: int)
    requires
        0 <= k,
    ensures
        poor_gain(avail, part, k) <= poor_rest(avail, part, k),
        poor_rest(avail, part, k + 1) == poor_rest(avail, part, k) - poor_gain(avail, part, k),
        poor_rest(avail, part, k) <= avail,
{
    assert((k + 1) * part == k * part + part) by (nonlinear_arith);
    assert(0 <= k * part) by (nonlinear_arith)
        requires
            0 <= k,
    ;
}

/// The children born of `s`: each specimen holding more than `threshold`
/// bears one with half its energy, in order.
pub open spec fn offspring(s: Seq<Specimen>, threshold: u64) -> Seq<Specimen>
    decreases s.len(),
{
    if s.len() == 0 {
        Seq::empty()
    } else {
        let rest = offspring(s.drop_last(), threshold);
        if s.last().energy > threshold {
            rest.push(Specimen { energy: s.last().energy / 2 })
        } else {
            rest
        }
    }
}

/// The specimens of `s` after giving birth: each holding more than
/// `threshold` keeps what its child did not take.
pub open spec fn after_birth(s: Seq<Specimen>, threshold: u64) -> Seq<Specimen> {
    Seq::new(
        s.len(),
        |k: int|
            if s[k].energy > threshold {
                Specimen { energy: (s[k].energy - s[k].energy / 2) as u64 }
            } else {
                s[k]
            },
    )
}

/// Shares `avail` equally, after which every contestant holding more than
/// `threshold` splits in two: the children come first, then the parents.
pub fn split_energy_equally_with_children(v: &Vec<Specimen>, avail: u64, threshold: u64) -> (r: (
    Vec<Specimen>,
    u64,
))
    requires
        energy_sum(v@) + avail <= u64::MAX,
    ensures
        r.0@ == offspring(split_spec(SplitPolicy::Equal, v@, avail as nat).0, threshold)
            + after_birth(split_spec(SplitPolicy::Equal, v@, avail as nat).0, threshold),
        r.1 == split_spec(SplitPolicy::Equal, v@, avail as nat).1,
        energy_sum(r.0@) + r.1 == energy_sum(v@) + avail,
{
    if v.len() == 0 {
        let empty: Vec<Specimen> = Vec::new();
        assert(empty@ == v@);
        return (empty, avail);
    }
    let (shared, left) = split_energy_equally(v, avail);
    let n = shared.len();
    let mut children: Vec<Specimen> = Vec::new();
    let mut parents: Vec<Specimen> = Vec::new();
    let mut i: usize = 0;
    while i < n
        invariant
            n == shared.len(),
            i <= n,
            children@ == offspring(shared@.take(i as int), threshold),
            parents@ == after_birth(shared@.take(i as int), threshold),
            energy_sum(children@) + energy_sum(parents@) == energy_sum(shared@.take(i as int)),
        decreases n - i,
    {
        let s = shared[i];
        proof {
            assert(shared@.take(i + 1).drop_last() == shared@.take(i as int));
            assert(shared@.take(i + 1) == shared@.take(i as int).push(s));
            lemma_energy_sum_push(shared@.take(i as int), s);
        }
        if s.energy > threshold {
            let child = Specimen { energy: s.energy / 2 };
            let parent = Specimen { energy: s.energy - s.energy / 2 };
            proof {
                lemma_energy_sum_push(children@, child);
                lemma_energy_sum_push(parents@, parent);
            }
            children.push(child);
            parents.push(parent);
        } else {
            proof {
                lemma_energy_sum_push(parents@, s);
            }
            parents.push(s);
        }
        proof {
            assert(parents@ == after_birth(shared@.take(i + 1), threshold));
        }
        i += 1;
    }
    proof {
        assert(shared@.take(n as int) == shared@);
    }
    let ghost kids = children@;
    let mut j: usize = 0;
    while j < n
        invariant
            j <= n,
            n == parents.len(),
            children@ == kids + parents@.take(j as int),
            energy_sum(children@) == energy_sum(kids) + energy_sum(parents@.take(j as int)),
        decreases n - j,
    {
        let p = parents[j];
        proof {
            assert(parents@.take(j + 1) == parents@.take(j as int).push(p));
            lemma_energy_sum_push(children@, p);
            lemma_energy_sum_push(parents@.take(j as int), p);
        }
        children.push(p);
        j += 1;
    }
    proof {
        assert(parents@.take(n as int) == parents@);
    }
    (children, left)
}

} // verus!
