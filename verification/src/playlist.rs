//! The choices behind the streamer's playlist: shuffling and random picks.

use vstd::prelude::*;
use crate::clock::clock_seed;

verus! {

/// The multiplier that spreads the seed over the positions of a shuffle.
pub const SHUFFLE_MULTIPLIER: u64 = 2654435761;

/// `<[T]>::swap`: exchanges the elements at `i` and `j` (documented to leave
/// the slice unchanged where `i == j`, and to panic out of bounds).
#[verifier::external_body]
fn vec_swap<T>(v: &mut Vec<T>, i: usize, j: usize)
    requires
        i < old(v)@.len(),
        j < old(v)@.len(),
    ensures
        final(v)@ == old(v)@.update(i as int, old(v)@[j as int]).update(j as int, old(v)@[i as int]),
{
    v.swap(i, j);
}

/// Whether a sequence of `len` elements can be shuffled without the index
/// arithmetic overflowing.
pub open spec fn shuffle_fits(len: nat) -> bool {
    (len - 1) * (SHUFFLE_MULTIPLIER as int) <= u64::MAX
}

/// The position that step `i` of the shuffle swaps with.
pub open spec fn shuffle_target(seed: u64, i: int) -> int {
    ((seed ^ ((i * (SHUFFLE_MULTIPLIER as int)) as u64)) % ((i + 1) as u64)) as int
}

/// `s` with the elements at `i` and `j` exchanged.
pub open spec fn swapped<T>(s: Seq<T>, i: int, j: int) -> Seq<T> {
    s.update(i, s[j]).update(j, s[i])
}

/// The steps `i`, `i - 1`, ..., `1` of the shuffle applied to `s`.
pub open spec fn shuffle_steps<T>(s: Seq<T>, seed: u64, i: int) -> Seq<T>
    decreases i,
{
    if i <= 0 {
        s
    } else {
        shuffle_steps(swapped(s, i, shuffle_target(seed, i)), seed, i - 1)
    }
}

proof fn lemma_shuffle_target_bound(seed: u64, i: int)
    requires
        0 < i < u64::MAX,
    ensures
        0 <= shuffle_target(seed, i) <= i,
{
    let x = seed ^ ((i * (SHUFFLE_MULTIPLIER as int)) as u64);
    let y = (i + 1) as u64;
    assert(x % y < y) by (nonlinear_arith)
        requires
            y > 0,
    {
    }
}

proof fn lemma_shuffle_steps_len<T>(s: Seq<T>, seed: u64, i: int)
    requires
        i < s.len(),
        i < u64::MAX,
    ensures
        shuffle_steps(s, seed, i).len() == s.len(),
    decreases i,
{
    if i > 0 {
        lemma_shuffle_target_bound(seed, i);
        lemma_shuffle_steps_len(swapped(s, i, shuffle_target(seed, i)), seed, i - 1);
    }
}

/// The Fisher-Yates order that `seed` gives to `s`.
pub open spec fn shuffled<T>(s: Seq<T>, seed: u64) -> Seq<T> {
    shuffle_steps(s, seed, s.len() - 1)
}

proof fn lemma_shuffle_steps_keep_above<T>(s: Seq<T>, seed: u64, i: int, k: int)
    requires
        i < s.len(),
        i < u64::MAX,
        i < k < s.len(),
    ensures
        shuffle_steps(s, seed, i).len() == s.len(),
        shuffle_steps(s, seed, i)[k] == s[k],
    decreases i,
{
    lemma_shuffle_steps_len(s, seed, i);
    if i > 0 {
        let j = shuffle_target(seed, i);
        lemma_shuffle_target_bound(seed, i);
        lemma_shuffle_steps_keep_above(swapped(s, i, j), seed, i - 1, k);
    }
}

/// The first step of the shuffle fixes the last position for good: it holds
/// the element at `(seed XOR (n - 1) * 2654435761) mod n` of the input.
pub proof fn lemma_shuffled_last<T>(s: Seq<T>, seed: u64)
    requires
        2 <= s.len() <= usize::MAX,
    ensures
        shuffled(s, seed).len() == s.len(),
        shuffled(s, seed)[s.len() - 1] == s[((seed ^ (((s.len() - 1) * 2654435761) as u64)) % (s.len() as u64)) as int],
{
    let n = s.len() as int;
    let i = n - 1;
    let j = shuffle_target(seed, i);
    lemma_shuffle_target_bound(seed, i);
    lemma_shuffle_steps_len(s, seed, i);
    let t = swapped(s, i, j);
    assert(t[i] == s[j]);
    if i > 1 {
        lemma_shuffle_steps_keep_above(t, seed, i - 1, i);
    }
}

/// Every element can end up last: for each position `p`, some seed moves the
/// element at `p` to the end.
pub proof fn lemma_shuffled_any_last<T>(s: Seq<T>, p: int)
    requires
        2 <= s.len() <= usize::MAX,
        0 <= p < s.len(),
    ensures
        shuffled(s, ((((s.len() - 1) * 2654435761) as u64) ^ (p as u64)))[s.len() - 1] == s[p],
{
    let x = (((s.len() - 1) * 2654435761) as u64);
    let q = p as u64;
    let seed = x ^ q;
    lemma_shuffled_last(s, seed);
    assert((x ^ q) ^ x == q) by (bit_vector);
    let n = s.len() as u64;
    assert(q < n);
    assert(q % n == q) by (nonlinear_arith)
        requires
            q < n,
    {
    }
}

proof fn lemma_swapped_multiset<T>(s: Seq<T>, i: int, j: int)
    requires
        0 <= i < s.len(),
        0 <= j < s.len(),
    ensures
        swapped(s, i, j).to_multiset() == s.to_multiset(),
{
    broadcast use vstd::seq_lib::to_multiset_update, vstd::multiset::group_multiset_axioms;

    broadcast use vstd::seq_lib::to_multiset_contains;

    let m = s.to_multiset();
    let t = s.update(i, s[j]);
    assert(t.len() == s.len() && t[j] == s[j]);
    assert(t.to_multiset() == m.insert(s[j]).remove(s[i]));
    assert(t.update(j, s[i]).to_multiset() == t.to_multiset().insert(s[i]).remove(t[j]));
    assert(s.contains(s[i]));
    assert(s.contains(s[j]));
    assert forall|x: T| #[trigger] swapped(s, i, j).to_multiset().count(x) == m.count(x) by {
    }
    assert(swapped(s, i, j).to_multiset() =~= m);
}

/// Shuffles `v` in place with the seed `seed`.
pub fn shuffle_with_seed<T>(v: &mut Vec<T>, seed: u64)
    requires
        shuffle_fits(old(v)@.len()),
    ensures
        final(v)@ == shuffled(old(v)@, seed),
        final(v)@.len() == old(v)@.len(),
        final(v)@.to_multiset() == old(v)@.to_multiset(),
{
    let len = v.len();
    let mut i = len;
    while i > 1
        invariant
            i <= len == v@.len(),
            shuffle_fits(len as nat),
            shuffled(old(v)@, seed) == shuffle_steps(v@, seed, i - 1),
            v@.to_multiset() == old(v)@.to_multiset(),
        decreases i,
    {
        i = i - 1;
        let iu = i as u64;
        assert(iu * SHUFFLE_MULTIPLIER <= u64::MAX) by (nonlinear_arith)
            requires
                iu <= len - 1,
                (len - 1) * (SHUFFLE_MULTIPLIER as int) <= u64::MAX,
        {
        }
        let j = ((seed ^ (iu * SHUFFLE_MULTIPLIER)) % (iu + 1)) as usize;
        assert(j as int == shuffle_target(seed, i as int));
        proof {
            lemma_swapped_multiset(v@, i as int, j as int);
        }
        vec_swap(v, i, j);
    }
}

/// Shuffles `v` in place, seeded by the clock.
pub fn shuffle<T>(v: &mut Vec<T>)
    requires
        shuffle_fits(old(v)@.len()),
    ensures
        exists|seed: u64| seed < 1_000_000_000 && #[trigger] shuffled(old(v)@, seed) == final(v)@,
        final(v)@.len() == old(v)@.len(),
        final(v)@.to_multiset() == old(v)@.to_multiset(),
{
    let seed = clock_seed();
    shuffle_with_seed(v, seed);
    assert(shuffled(old(v)@, seed) == v@);
}

// ---------------------------------------------------------------
// Random picks
// ---------------------------------------------------------------

/// The element that `seed` picks from `files`: the one at `seed % len`.
pub open spec fn picked<T>(files: Seq<T>, seed: u64) -> Option<T> {
    if files.len() == 0 {
        None
    } else {
        Some(files[(seed as int) % (files.len() as int)])
    }
}

/// Picks the element of `files` that `seed` designates; `None` for no files.
pub fn pick_with_seed<'a, T>(files: &'a [T], seed: u64) -> (r: Option<&'a T>)
    ensures
        match r {
            None => picked(files@, seed) is None,
            Some(x) => picked(files@, seed) == Some(*x),
        },
{
    if files.len() == 0 {
        return None;
    }
    let k = (seed % (files.len() as u64)) as usize;
    Some(&files[k])
}

/// Picks one element of `files`, seeded by the clock; `None` for no files.
pub fn pick_random<'a, T>(files: &'a [T]) -> (r: Option<&'a T>)
    ensures
        r is None <==> files@.len() == 0,
        match r {
            None => true,
            Some(x) => {
                &&& exists|k: int| 0 <= k < files@.len() && files@[k] == *x
                &&& exists|seed: u64| seed < 1_000_000_000 && #[trigger] picked(files@, seed) == Some(*x)
            },
        },
{
    if files.len() == 0 {
        return None;
    }
    let seed = clock_seed();
    let r = pick_with_seed(files, seed);
    proof {
        let k = (seed as int) % (files@.len() as int);
        assert(files@[k] == picked(files@, seed)->0);
    }
    r
}

/// The positions `0, 1, ..., n - 1`.
pub open spec fn positions(n: nat) -> Seq<usize> {
    Seq::new(n, |i: int| i as usize)
}

/// How many elements a pick of between `min` and `max` takes from `len`.
pub open spec fn pick_count(len: nat, min: nat, max: nat, count_seed: u64) -> nat {
    let count = min + (count_seed as nat) % ((max - min + 1) as nat);
    if count <= len { count } else { len }
}

/// The positions that a pick of between `min` and `max` elements takes.
pub open spec fn picked_positions(len: nat, min: nat, max: nat, count_seed: u64, order_seed: u64) -> Seq<usize> {
    shuffled(positions(len), order_seed).take(pick_count(len, min, max, count_seed) as int)
}

/// The elements that a pick of between `min` and `max` elements takes; none
/// from no files.
pub open spec fn picked_many<T>(files: Seq<T>, min: nat, max: nat, count_seed: u64, order_seed: u64) -> Seq<T> {
    if files.len() == 0 {
        Seq::empty()
    } else {
        picked_positions(files.len(), min, max, count_seed, order_seed).map_values(|i: usize| files[i as int])
    }
}

/// `refs` holds exactly the elements `expected`.
pub open spec fn refs_are<T>(refs: Seq<&T>, expected: Seq<T>) -> bool {
    refs.len() == expected.len() && forall|i: int| 0 <= i < refs.len() ==> *refs[i] == expected[i]
}

/// `refs` holds elements of `files` taken from distinct positions.
pub open spec fn distinct_picks<T>(files: Seq<T>, refs: Seq<&T>) -> bool {
    exists|ks: Seq<usize>|
        #![trigger ks.no_duplicates()]
        ks.len() == refs.len() && ks.no_duplicates() && forall|i: int|
            0 <= i < ks.len() ==> ks[i] < files.len() && *refs[i] == files[ks[i] as int]
}

proof fn lemma_positions_no_duplicates(n: nat)
    requires
        n <= usize::MAX,
    ensures
        positions(n).no_duplicates(),
        forall|x: usize| positions(n).to_multiset().contains(x) ==> positions(n).to_multiset().count(x) == 1,
        forall|x: usize| #[trigger] positions(n).to_multiset().contains(x) ==> x < n,
{
    broadcast use vstd::seq_lib::to_multiset_contains;

    let p = positions(n);
    assert forall|i: int, j: int| 0 <= i < p.len() && 0 <= j < p.len() && i != j implies p[i] != p[j] by {
    }
    p.lemma_multiset_has_no_duplicates();
    assert forall|x: usize| #[trigger] p.to_multiset().contains(x) implies x < n by {
        assert(p.contains(x));
        let k = choose|k: int| 0 <= k < p.len() && p[k] == x;
        assert(p[k] == k);
    }
}

/// A shuffle of the positions `0..n` holds each of them once.
proof fn lemma_shuffled_positions(n: nat, seed: u64, v: Seq<usize>)
    requires
        n <= usize::MAX,
        v == shuffled(positions(n), seed),
        v.to_multiset() == positions(n).to_multiset(),
    ensures
        v.no_duplicates(),
        forall|i: int| 0 <= i < v.len() ==> #[trigger] v[i] < n,
{
    broadcast use vstd::seq_lib::to_multiset_contains;

    lemma_positions_no_duplicates(n);
    v.lemma_multiset_has_no_duplicates_conv();
    assert forall|i: int| 0 <= i < v.len() implies #[trigger] v[i] < n by {
        assert(v.contains(v[i]));
        assert(positions(n).to_multiset().contains(v[i]));
    }
}

/// The positions `0..n` in a vector.
fn position_vec(n: usize) -> (v: Vec<usize>)
    ensures
        v@ == positions(n as nat),
{
    let mut v: Vec<usize> = Vec::new();
    let mut i: usize = 0;
    while i < n
        invariant
            i <= n,
            v@ =~= positions(i as nat),
        decreases n - i,
    {
        v.push(i);
        i = i + 1;
    }
    v
}

/// Picks between `min` and `max` elements of `files` (fewer if `files` has
/// fewer) from distinct positions, as the seeds designate.
pub fn pick_count_with_seeds<'a, T>(
    files: &'a [T],
    min: usize,
    max: usize,
    count_seed: u64,
    order_seed: u64,
) -> (r: Vec<&'a T>)
    requires
        files@.len() > 0 ==> min <= max && max - min < usize::MAX,
        shuffle_fits(files@.len()),
    ensures
        refs_are(r@, picked_many(files@, min as nat, max as nat, count_seed, order_seed)),
        distinct_picks(files@, r@),
{
    let len = files.len();
    if len == 0 {
        let r: Vec<&'a T> = Vec::new();
        proof {
            let ks = Seq::<usize>::empty();
            assert(ks.no_duplicates());
        }
        return r;
    }
    let mut indices = position_vec(len);
    shuffle_with_seed(&mut indices, order_seed);
    let ghost order = indices@;
    proof {
        lemma_shuffled_positions(len as nat, order_seed, order);
    }
    let span = (max - min + 1) as u64;
    let extra = (count_seed % span) as usize;
    let mut count = min + extra;
    if count > len {
        count = len;
    }
    assert(count == pick_count(len as nat, min as nat, max as nat, count_seed));
    let ghost expected = picked_many(files@, min as nat, max as nat, count_seed, order_seed);
    let mut r: Vec<&'a T> = Vec::new();
    let mut i: usize = 0;
    while i < count
        invariant
            i <= count <= len == files@.len() == indices@.len(),
            indices@ == order,
            order.no_duplicates(),
            forall|k: int| 0 <= k < order.len() ==> #[trigger] order[k] < len,
            expected == order.take(count as int).map_values(|k: usize| files@[k as int]),
            r@.len() == i,
            forall|k: int| 0 <= k < i ==> *r@[k] == files@[order[k] as int],
        decreases count - i,
    {
        let k = indices[i];
        r.push(&files[k]);
        i = i + 1;
    }
    proof {
        let ks = order.take(count as int);
        assert(ks.no_duplicates());
        assert(forall|k: int| 0 <= k < ks.len() ==> ks[k] < files@.len() && *r@[k] == files@[ks[k] as int]);
    }
    r
}

/// Picks between `min` and `max` elements of `files` (fewer if `files` has
/// fewer) from distinct positions, seeded by the clock.
pub fn pick_random_count<'a, T>(files: &'a [T], min: usize, max: usize) -> (r: Vec<&'a T>)
    requires
        files@.len() > 0 ==> min <= max && max - min < usize::MAX,
        shuffle_fits(files@.len()),
    ensures
        files@.len() == 0 ==> r@.len() == 0,
        files@.len() > 0 ==> {
            &&& min <= r@.len() <= max || r@.len() == files@.len() < min
            &&& r@.len() <= files@.len()
        },
        distinct_picks(files@, r@),
        exists|count_seed: u64, order_seed: u64|
            count_seed < 1_000_000_000 && order_seed < 1_000_000_000
            && #[trigger] refs_are(r@, picked_many(files@, min as nat, max as nat, count_seed, order_seed)),
{
    if files.len() == 0 {
        let r: Vec<&'a T> = Vec::new();
        proof {
            let ks = Seq::<usize>::empty();
            assert(ks.no_duplicates());
            assert(refs_are(r@, picked_many(files@, min as nat, max as nat, 0, 0)));
        }
        return r;
    }
    let count_seed = clock_seed();
    let order_seed = clock_seed();
    let r = pick_count_with_seeds(files, min, max, count_seed, order_seed);
    proof {
        let n = pick_count(files@.len(), min as nat, max as nat, count_seed);
        lemma_shuffle_steps_len(positions(files@.len()), order_seed, files@.len() - 1);
        assert((count_seed as nat) % ((max - min + 1) as nat) <= max - min);
        assert(refs_are(r@, picked_many(files@, min as nat, max as nat, count_seed, order_seed)));
    }
    r
}

// ---------------------------------------------------------------
// One cycle of the playlist
// ---------------------------------------------------------------

proof fn lemma_shuffle_steps_map<A, B>(s: Seq<A>, f: spec_fn(A) -> B, seed: u64, i: int)
    requires
        i < s.len(),
        i < u64::MAX,
    ensures
        shuffle_steps(s.map_values(f), seed, i) == shuffle_steps(s, seed, i).map_values(f),
    decreases i,
{
    if i > 0 {
        let j = shuffle_target(seed, i);
        lemma_shuffle_target_bound(seed, i);
        assert(swapped(s.map_values(f), i, j) =~= swapped(s, i, j).map_values(f));
        lemma_shuffle_steps_map(swapped(s, i, j), f, seed, i - 1);
    }
}

/// Shuffling the positions of `s` and reading `s` at them is shuffling `s`.
pub proof fn lemma_shuffled_positions_read<T>(s: Seq<T>, seed: u64)
    requires
        s.len() <= usize::MAX,
        0 < s.len(),
    ensures
        shuffled(positions(s.len()), seed).map_values(|k: usize| s[k as int]) == shuffled(s, seed),
{
    let f = |k: usize| s[k as int];
    lemma_shuffle_steps_map(positions(s.len()), f, seed, s.len() - 1);
    assert(positions(s.len()).map_values(f) =~= s);
}

/// The seeds of the five choices that one cycle makes.
pub struct CycleSeeds {
    pub order_e: u64,
    pub pick_1: u64,
    pub count_3: u64,
    pub order_3: u64,
    pub pick_option: u64,
}

/// One cycle of the playlist: the tracks in playing order, and whether the
/// options folder contributed one.
pub struct Cycle<'a, T> {
    pub tracks: Vec<&'a T>,
    pub options_included: bool,
}

/// Every seed is a nanosecond count of the clock, below one billion.
pub open spec fn seeds_from_clock(seeds: CycleSeeds) -> bool {
    &&& seeds.order_e < 1_000_000_000
    &&& seeds.pick_1 < 1_000_000_000
    &&& seeds.count_3 < 1_000_000_000
    &&& seeds.order_3 < 1_000_000_000
    &&& seeds.pick_option < 1_000_000_000
}

/// The one element of `o`, or nothing.
pub open spec fn option_seq<T>(o: Option<T>) -> Seq<T> {
    match o {
        Some(x) => seq![x],
        None => Seq::empty(),
    }
}

/// The tracks of one cycle: the first three of `truck_e` in a shuffled
/// order, one of `truck_1`, two to five of `truck_3`, and one of `options`,
/// each part as far as its folder has tracks.
pub open spec fn cycle_tracks<T>(
    truck_e: Seq<T>,
    truck_1: Seq<T>,
    truck_3: Seq<T>,
    options: Seq<T>,
    seeds: CycleSeeds,
) -> Seq<T> {
    shuffled(truck_e, seeds.order_e).take(if truck_e.len() < 3 { truck_e.len() as int } else { 3 })
        + option_seq(picked(truck_1, seeds.pick_1))
        + picked_many(truck_3, 2, 5, seeds.count_3, seeds.order_3)
        + option_seq(picked(options, seeds.pick_option))
}

proof fn lemma_shuffle_steps_multiset<T>(s: Seq<T>, seed: u64, i: int)
    requires
        i < s.len(),
        i < u64::MAX,
    ensures
        shuffle_steps(s, seed, i).to_multiset() == s.to_multiset(),
    decreases i,
{
    if i > 0 {
        let j = shuffle_target(seed, i);
        lemma_shuffle_target_bound(seed, i);
        lemma_swapped_multiset(s, i, j);
        lemma_shuffle_steps_multiset(swapped(s, i, j), seed, i - 1);
    }
}

/// The trucks-3 part of a cycle is a pick of two to five tracks: the count
/// seed `c` takes `min(2 + c mod 4, |truck_3|)` of them (so `c = 0` takes
/// two), each from a different position of `truck_3`, right after the
/// up to three tracks of `truck_e` and the one of `truck_1`.
pub proof fn lemma_cycle_truck_3_part<T>(
    truck_e: Seq<T>,
    truck_1: Seq<T>,
    truck_3: Seq<T>,
    options: Seq<T>,
    seeds: CycleSeeds,
)
    requires
        truck_e.len() <= usize::MAX,
        truck_3.len() <= usize::MAX,
    ensures
        ({
            let c = cycle_tracks(truck_e, truck_1, truck_3, options, seeds);
            let e = if truck_e.len() < 3 { truck_e.len() as int } else { 3 };
            let one = if truck_1.len() > 0 { 1int } else { 0 };
            let opt = if options.len() > 0 { 1int } else { 0 };
            let want = 2 + (seeds.count_3 as int) % 4;
            let m = if want <= truck_3.len() { want } else { truck_3.len() as int };
            &&& c.len() == e + one + m + opt
            &&& exists|ks: Seq<usize>|
                #![trigger ks.no_duplicates()]
                ks.len() == m && ks.no_duplicates() && forall|k: int|
                    0 <= k < m ==> ks[k] < truck_3.len() && c[e + one + k] == truck_3[ks[k] as int]
        }),
{
    let c = cycle_tracks(truck_e, truck_1, truck_3, options, seeds);
    let e = if truck_e.len() < 3 { truck_e.len() as int } else { 3 };
    let one = if truck_1.len() > 0 { 1int } else { 0 };
    let want = 2 + (seeds.count_3 as int) % 4;
    let m = if want <= truck_3.len() { want } else { truck_3.len() as int };
    if truck_e.len() > 0 {
        lemma_shuffle_steps_len(truck_e, seeds.order_e, truck_e.len() - 1);
    }
    assert((seeds.count_3 as nat) % ((5 - 2 + 1) as nat) == (seeds.count_3 as int) % 4);
    if truck_3.len() > 0 {
        let n = truck_3.len();
        let order = shuffled(positions(n), seeds.order_3);
        lemma_shuffle_steps_len(positions(n), seeds.order_3, n - 1);
        lemma_shuffle_steps_multiset(positions(n), seeds.order_3, n - 1);
        lemma_shuffled_positions(n, seeds.order_3, order);
        let ks = order.take(m);
        let part_3 = picked_many(truck_3, 2, 5, seeds.count_3, seeds.order_3);
        assert(part_3.len() == m);
        assert(ks.no_duplicates());
        let head = shuffled(truck_e, seeds.order_e).take(e) + option_seq(picked(truck_1, seeds.pick_1));
        assert(head.len() == e + one);
        assert forall|k: int| 0 <= k < m implies ks[k] < truck_3.len() && c[e + one + k] == truck_3[ks[k] as int] by {
            assert(c[e + one + k] == (head + part_3)[e + one + k]);
            assert(part_3[k] == truck_3[ks[k] as int]);
        }
    } else {
        let ks = Seq::<usize>::empty();
        assert(ks.no_duplicates());
    }
}

/// Whatever the seeds, a cycle holds up to three tracks of `truck_e`, one of
/// `truck_1` where it has any, two to five of `truck_3` (as many as it has, if
/// fewer), and one of `options` where it has any.
pub proof fn lemma_cycle_length<T>(
    truck_e: Seq<T>,
    truck_1: Seq<T>,
    truck_3: Seq<T>,
    options: Seq<T>,
    seeds: CycleSeeds,
)
    requires
        truck_e.len() <= usize::MAX,
        truck_3.len() <= usize::MAX,
    ensures
        ({
            let n = cycle_tracks(truck_e, truck_1, truck_3, options, seeds).len();
            let e = if truck_e.len() < 3 { truck_e.len() } else { 3 };
            let one = if truck_1.len() > 0 { 1int } else { 0 };
            let opt = if options.len() > 0 { 1int } else { 0 };
            let lo = if truck_3.len() < 2 { truck_3.len() } else { 2 };
            let hi = if truck_3.len() < 5 { truck_3.len() } else { 5 };
            e + one + lo + opt <= n <= e + one + hi + opt
        }),
{
    if truck_e.len() > 0 {
        lemma_shuffle_steps_len(truck_e, seeds.order_e, truck_e.len() - 1);
    }
    if truck_3.len() > 0 {
        lemma_shuffle_steps_len(positions(truck_3.len()), seeds.order_3, truck_3.len() - 1);
    }
    assert((seeds.count_3 as nat) % 4 < 4);
}

/// Builds one cycle of the playlist from the tracks of the four folders, with
/// the choices that `seeds` designate.
pub fn build_cycle_with_seeds<'a, T>(
    truck_e: &'a [T],
    truck_1: &'a [T],
    truck_3: &'a [T],
    options: &'a [T],
    seeds: &CycleSeeds,
) -> (c: Cycle<'a, T>)
    requires
        shuffle_fits(truck_e@.len()),
        shuffle_fits(truck_3@.len()),
    ensures
        refs_are(c.tracks@, cycle_tracks(truck_e@, truck_1@, truck_3@, options@, *seeds)),
        c.options_included == (options@.len() > 0),
{
    let mut tracks: Vec<&'a T> = Vec::new();

    // Up to three tracks of `truck_e`, in a shuffled order.
    let len_e = truck_e.len();
    let mut order = position_vec(len_e);
    shuffle_with_seed(&mut order, seeds.order_e);
    let ghost shuffled_e = order@;
    proof {
        if len_e > 0 {
            lemma_shuffled_positions(len_e as nat, seeds.order_e, shuffled_e);
            lemma_shuffled_positions_read(truck_e@, seeds.order_e);
        }
    }
    let take = if len_e < 3 { len_e } else { 3 };
    let ghost part_e = shuffled(truck_e@, seeds.order_e).take(take as int);
    let mut i: usize = 0;
    while i < take
        invariant
            i <= take <= len_e == truck_e@.len() == order@.len(),
            take <= 3,
            order@ == shuffled_e,
            forall|k: int| 0 <= k < order@.len() ==> #[trigger] order@[k] < len_e,
            len_e > 0 ==> shuffled_e.map_values(|k: usize| truck_e@[k as int]) == shuffled(truck_e@, seeds.order_e),
            part_e == shuffled(truck_e@, seeds.order_e).take(take as int),
            tracks@.len() == i,
            forall|k: int| 0 <= k < i ==> *tracks@[k] == part_e[k],
        decreases take - i,
    {
        let k = order[i];
        tracks.push(&truck_e[k]);
        i = i + 1;
    }
    assert(refs_are(tracks@, part_e));

    // One track of `truck_1`.
    let ghost part_1 = option_seq(picked(truck_1@, seeds.pick_1));
    match pick_with_seed(truck_1, seeds.pick_1) {
        Some(t) => tracks.push(t),
        None => {},
    }
    assert(refs_are(tracks@, part_e + part_1));

    // Two to five tracks of `truck_3`.
    let ghost before_3 = tracks@;
    let ghost part_3 = picked_many(truck_3@, 2, 5, seeds.count_3, seeds.order_3);
    let more = pick_count_with_seeds(truck_3, 2, 5, seeds.count_3, seeds.order_3);
    let mut j: usize = 0;
    while j < more.len()
        invariant
            j <= more@.len(),
            refs_are(more@, part_3),
            refs_are(before_3, part_e + part_1),
            tracks@.len() == before_3.len() + j,
            forall|k: int| 0 <= k < before_3.len() ==> tracks@[k] == before_3[k],
            forall|k: int| 0 <= k < j ==> *tracks@[before_3.len() + k] == part_3[k],
        decreases more@.len() - j,
    {
        tracks.push(more[j]);
        j = j + 1;
    }
    assert(refs_are(tracks@, part_e + part_1 + part_3));

    // One track of `options`, where it has any.
    let ghost part_o = option_seq(picked(options@, seeds.pick_option));
    let options_included = match pick_with_seed(options, seeds.pick_option) {
        Some(t) => {
            tracks.push(t);
            true
        },
        None => false,
    };
    assert(refs_are(tracks@, part_e + part_1 + part_3 + part_o));
    Cycle { tracks, options_included }
}

/// Builds one cycle of the playlist from the tracks of the four folders, with
/// choices seeded by the clock.
pub fn build_cycle<'a, T>(
    truck_e: &'a [T],
    truck_1: &'a [T],
    truck_3: &'a [T],
    options: &'a [T],
) -> (c: Cycle<'a, T>)
    requires
        shuffle_fits(truck_e@.len()),
        shuffle_fits(truck_3@.len()),
    ensures
        exists|seeds: CycleSeeds|
            seeds_from_clock(seeds) && #[trigger] refs_are(c.tracks@, cycle_tracks(truck_e@, truck_1@, truck_3@, options@, seeds)),
        c.options_included == (options@.len() > 0),
{
    let seeds = CycleSeeds {
        order_e: clock_seed(),
        pick_1: clock_seed(),
        count_3: clock_seed(),
        order_3: clock_seed(),
        pick_option: clock_seed(),
    };
    build_cycle_with_seeds(truck_e, truck_1, truck_3, options, &seeds)
}

} // verus!
