//! The trial/aggregation engine: draws fixed-size samples of die faces
//! from a generator, reduces each sample to one scalar with a
//! caller-supplied reduction, and tabulates the scalars of many
//! independent trials into a frequency histogram.

use vstd::prelude::*;

use crate::histogram::{create_histogram, is_histogram_of, sorted_desc, total_count};
use crate::histogram::lemma_histogram_unique;
use crate::rng::{nth_state, Rng};

verus! {

/// The ten-sided-die face a raw draw maps to: `(r mod 10) + 1`, always
/// in [1, 10] whatever the draw.
pub open spec fn face_of(r: u64) -> u128 {
    (r % 10 + 1) as u128
}

/// The faces of one sample of `n` draws taken from a generator whose
/// state word is `state`.
pub open spec fn sample_of(state: u64, n: nat) -> Seq<u128> {
    Seq::new(n, |i: int| face_of(nth_state(state, i as nat)))
}

/// Advancing the generator `a + b` times is advancing it `a` times and
/// then `b` more.
pub proof fn lemma_nth_state_add(seed: u64, a: nat, b: nat)
    ensures
        nth_state(seed, a + b) == nth_state(nth_state(seed, a), b),
    decreases b,
{
    if b > 0 {
        lemma_nth_state_add(seed, a, (b - 1) as nat);
    }
}

/// Draws `n_tosses` values from the generator and maps each raw draw
/// `r` to the die face `(r mod 10) + 1`, in draw order.
pub fn toss(rng: &mut Rng, n_tosses: usize) -> (faces: Vec<u128>)
    ensures
        faces@ == sample_of(old(rng)@, n_tosses as nat),
        faces@.len() == n_tosses,
        forall|i: int| 0 <= i < faces@.len() ==> 1 <= #[trigger] faces@[i] <= 10,
        final(rng)@ == nth_state(old(rng)@, n_tosses as nat),
{
    let mut faces: Vec<u128> = Vec::new();
    let mut i: usize = 0;
    while i < n_tosses
        invariant
            i <= n_tosses,
            faces@.len() == i,
            forall|j: int| 0 <= j < i ==> #[trigger] faces@[j] == face_of(
                nth_state(old(rng)@, j as nat),
            ),
            rng@ == nth_state(old(rng)@, i as nat),
        decreases n_tosses - i,
    {
        let r = rng.rand();
        faces.push((r % 10 + 1) as u128);
        i += 1;
    }
    proof {
        assert(faces@ =~= sample_of(old(rng)@, n_tosses as nat));
    }
    faces
}

/// The sum of all values in a face sequence.
pub open spec fn sum_of(s: Seq<u128>) -> int
    decreases s.len(),
{
    if s.len() == 0 {
        0
    } else {
        sum_of(s.drop_last()) + s.last()
    }
}

/// The product of all values in a face sequence; the empty product is
/// the identity 1.
pub open spec fn product_of(s: Seq<u128>) -> int
    decreases s.len(),
{
    if s.len() == 0 {
        1
    } else {
        product_of(s.drop_last()) * s.last()
    }
}

/// The `k`-th power of ten.
pub open spec fn pow10(k: nat) -> int
    decreases k,
{
    if k == 0 {
        1
    } else {
        10 * pow10((k - 1) as nat)
    }
}

/// The floor of the base-10 logarithm of `x`, for `x >= 1`.
pub open spec fn log10_floor(x: int) -> int
    recommends
        x >= 1,
    decreases x,
{
    if x < 10 {
        0
    } else {
        1 + log10_floor(x / 10)
    }
}

/// Every power of ten is positive.
pub proof fn lemma_pow10_pos(k: nat)
    ensures
        pow10(k) >= 1,
    decreases k,
{
    if k > 0 {
        lemma_pow10_pos((k - 1) as nat);
    }
}

/// Ten raised to more never gives less.
pub proof fn lemma_pow10_mono(a: nat, b: nat)
    requires
        a <= b,
    ensures
        1 <= pow10(a) <= pow10(b),
    decreases b,
{
    lemma_pow10_pos(a);
    if a < b {
        lemma_pow10_mono(a, (b - 1) as nat);
    }
}

/// A product of faces in [1, 10] lies between 1 and ten to the length.
pub proof fn lemma_product_bound(s: Seq<u128>)
    requires
        forall|i: int| 0 <= i < s.len() ==> 1 <= #[trigger] s[i] <= 10,
    ensures
        1 <= product_of(s) <= pow10(s.len()),
    decreases s.len(),
{
    if s.len() > 0 {
        lemma_product_bound(s.drop_last());
        let p = product_of(s.drop_last());
        let f = s.last() as int;
        let q = pow10((s.len() - 1) as nat);
        assert(1 <= p * f && p * f <= q * 10) by (nonlinear_arith)
            requires
                1 <= p <= q,
                1 <= f <= 10,
        ;
    }
}

/// Ten to the 38th still fits in 128 bits (ten to the 39th would not).
pub proof fn lemma_pow10_38_fits()
    ensures
        pow10(38) == 0x4b3b4ca85a86c47a098a224000000000,
{
    reveal_with_fuel(pow10, 40);
}

/// Sum-of-faces reduction: collapses a sample to the sum of its faces.
/// Faces are at most 10, so the sum fits far inside 128 bits.
pub fn sum_faces(faces: &[u128]) -> (r: u128)
    requires
        forall|i: int| 0 <= i < faces@.len() ==> 1 <= #[trigger] faces@[i] <= 10,
    ensures
        r == sum_of(faces@),
{
    let mut acc: u128 = 0;
    let mut i: usize = 0;
    while i < faces.len()
        invariant
            i <= faces@.len(),
            forall|j: int| 0 <= j < faces@.len() ==> 1 <= #[trigger] faces@[j] <= 10,
            acc == sum_of(faces@.take(i as int)),
            acc <= 10 * (i as int),
        decreases faces@.len() - i,
    {
        proof {
            assert(faces@.take(i + 1).drop_last() =~= faces@.take(i as int));
        }
        acc = acc + faces[i];
        i += 1;
    }
    proof {
        assert(faces@.take(faces@.len() as int) =~= faces@);
    }
    acc
}

/// Product-of-faces reduction: collapses a sample to the product of
/// its faces.  With faces in [1, 10] the product is at most ten to the
/// sample length, so up to 38 tosses it cannot overflow 128 bits; a
/// longer sample is a configuration the arithmetic width cannot carry.
pub fn product_faces(faces: &[u128]) -> (r: u128)
    requires
        forall|i: int| 0 <= i < faces@.len() ==> 1 <= #[trigger] faces@[i] <= 10,
        faces@.len() <= 38,
    ensures
        r == product_of(faces@),
{
    let mut acc: u128 = 1;
    let mut i: usize = 0;
    while i < faces.len()
        invariant
            i <= faces@.len() <= 38,
            forall|j: int| 0 <= j < faces@.len() ==> 1 <= #[trigger] faces@[j] <= 10,
            acc == product_of(faces@.take(i as int)),
            1 <= acc <= pow10(i as nat),
        decreases faces@.len() - i,
    {
        proof {
            assert(faces@.take(i + 1).drop_last() =~= faces@.take(i as int));
            let p = acc as int;
            let f = faces@[i as int] as int;
            let q = pow10(i as nat);
            assert(1 <= p * f && p * f <= q * 10) by (nonlinear_arith)
                requires
                    1 <= p <= q,
                    1 <= f <= 10,
            ;
            lemma_pow10_mono((i + 1) as nat, 38);
            lemma_pow10_38_fits();
        }
        acc = acc * faces[i];
        i += 1;
    }
    proof {
        assert(faces@.take(faces@.len() as int) =~= faces@);
    }
    acc
}

/// The floor logarithm is non-negative and smaller than the number
/// itself.
pub proof fn lemma_log10_floor_bounds(x: int)
    requires
        x >= 1,
    ensures
        0 <= log10_floor(x) <= x - 1,
    decreases x,
{
    if x >= 10 {
        lemma_log10_floor_bounds(x / 10);
    }
}

/// Log-of-product reduction: the floor of the base-10 logarithm of the
/// product of the faces.  A sample must have at least one toss: the
/// logarithm of an empty product is a configuration error that this
/// contract rules out rather than defaulting silently.
pub fn log10_product_faces(faces: &[u128]) -> (r: u128)
    requires
        forall|i: int| 0 <= i < faces@.len() ==> 1 <= #[trigger] faces@[i] <= 10,
        1 <= faces@.len() <= 38,
    ensures
        r == log10_floor(product_of(faces@)),
{
    let p = product_faces(faces);
    proof {
        lemma_product_bound(faces@);
        lemma_log10_floor_bounds(p as int);
    }
    let mut x = p;
    let mut r: u128 = 0;
    while x >= 10
        invariant
            1 <= x,
            r + log10_floor(x as int) == log10_floor(p as int),
            0 <= log10_floor(x as int),
            log10_floor(p as int) <= p - 1,
        decreases x,
    {
        proof {
            lemma_log10_floor_bounds((x / 10) as int);
        }
        x = x / 10;
        r = r + 1;
    }
    r
}

/// `out` is a possible result of handing a slice with the given face
/// sequence to the reduction `f`.
pub open spec fn reduces_to<F: Fn(&[u128]) -> u128>(f: F, sample: Seq<u128>, out: u128) -> bool {
    exists|s: &[u128]| s@ == sample && call_ensures(f, (s,), out)
}

/// What `run_experiment` establishes about a returned table `h`: some
/// sequence of trial scalars, one per trial, each a result of the
/// reduction on that trial's sample, has `h` as its histogram.  Trial
/// `t` consumes draws `t * tosses_per_trial` up to the next multiple,
/// since the one generator threads through all trials.
pub open spec fn experiment_post<F: Fn(&[u128]) -> u128>(
    reduce: F,
    seed: u64,
    dataset_size: nat,
    tosses_per_trial: nat,
    h: Seq<(u128, usize)>,
) -> bool {
    exists|scalars: Seq<u128>|
        {
            &&& scalars.len() == dataset_size
            &&& forall|t: int|
                0 <= t < dataset_size ==> reduces_to(
                    reduce,
                    sample_of(nth_state(seed, (t * tosses_per_trial) as nat), tosses_per_trial),
                    #[trigger] scalars[t],
                )
            &&& is_histogram_of(scalars, h)
        }
}

/// Runs `dataset_size` independent trials.  Each trial draws a fresh
/// sample of `tosses_per_trial` faces from the one shared generator (no
/// reseeding between trials), reduces it to a scalar, and the scalars'
/// frequency histogram comes back sorted by strictly descending key.
/// The sum of all counts equals `dataset_size`; an empty experiment
/// yields an empty histogram.
pub fn run_experiment<F: Fn(&[u128]) -> u128>(
    rng: &mut Rng,
    dataset_size: usize,
    tosses_per_trial: usize,
    reduce: F,
) -> (result: Vec<(u128, usize)>)
    requires
        forall|s: &[u128]|
            (s@.len() == tosses_per_trial && (forall|i: int|
                0 <= i < s@.len() ==> 1 <= #[trigger] s@[i] <= 10)) ==> #[trigger] call_requires(
                reduce,
                (s,),
            ),
    ensures
        experiment_post(reduce, old(rng)@, dataset_size as nat, tosses_per_trial as nat, result@),
        sorted_desc(result@),
        total_count(result@) == dataset_size,
        final(rng)@ == nth_state(
            old(rng)@,
            (dataset_size as nat) * (tosses_per_trial as nat),
        ),
{
    let mut scalars: Vec<u128> = Vec::new();
    let mut t: usize = 0;
    while t < dataset_size
        invariant
            t <= dataset_size,
            scalars@.len() == t,
            rng@ == nth_state(old(rng)@, (t as nat) * (tosses_per_trial as nat)),
            forall|u: int|
                0 <= u < t ==> reduces_to(
                    reduce,
                    sample_of(
                        nth_state(old(rng)@, (u * (tosses_per_trial as int)) as nat),
                        tosses_per_trial as nat,
                    ),
                    #[trigger] scalars@[u],
                ),
            forall|s: &[u128]|
                (s@.len() == tosses_per_trial && (forall|i: int|
                    0 <= i < s@.len() ==> 1 <= #[trigger] s@[i] <= 10))
                    ==> #[trigger] call_requires(reduce, (s,)),
        decreases dataset_size - t,
    {
        let sample = toss(rng, tosses_per_trial);
        let sl = sample.as_slice();
        let scalar = reduce(sl);
        proof {
            assert((t + 1) * (tosses_per_trial as int) == t * (tosses_per_trial as int) + (
            tosses_per_trial as int)) by (nonlinear_arith);
            lemma_nth_state_add(
                old(rng)@,
                (t as nat) * (tosses_per_trial as nat),
                tosses_per_trial as nat,
            );
            assert(reduces_to(
                reduce,
                sample_of(
                    nth_state(old(rng)@, ((t as int) * (tosses_per_trial as int)) as nat),
                    tosses_per_trial as nat,
                ),
                scalar,
            ));
        }
        scalars.push(scalar);
        t += 1;
    }
    let result = create_histogram(scalars);
    proof {
        let ghost sc = scalars@;
        assert(sc.len() == dataset_size as nat && (forall|u: int|
            0 <= u < dataset_size ==> reduces_to(
                reduce,
                sample_of(
                    nth_state(old(rng)@, (u * (tosses_per_trial as int)) as nat),
                    tosses_per_trial as nat,
                ),
                #[trigger] sc[u],
            )) && is_histogram_of(sc, result@));
    }
    result
}

/// Aggregation is idempotent: two experiment runs over generators
/// seeded identically, with reductions that both compute the same
/// mathematical function `m` of the sample, produce identical
/// histograms.
pub proof fn lemma_experiment_deterministic<F: Fn(&[u128]) -> u128, G: Fn(&[u128]) -> u128>(
    f: F,
    g: G,
    m: spec_fn(Seq<u128>) -> u128,
    seed: u64,
    dataset_size: nat,
    tosses_per_trial: nat,
    h1: Seq<(u128, usize)>,
    h2: Seq<(u128, usize)>,
)
    requires
        forall|s: &[u128], r: u128| call_ensures(f, (s,), r) ==> r == m(s@),
        forall|s: &[u128], r: u128| call_ensures(g, (s,), r) ==> r == m(s@),
        experiment_post(f, seed, dataset_size, tosses_per_trial, h1),
        experiment_post(g, seed, dataset_size, tosses_per_trial, h2),
    ensures
        h1 == h2,
{
    let sc1 = choose|scalars: Seq<u128>|
        {
            &&& scalars.len() == dataset_size
            &&& forall|t: int|
                0 <= t < dataset_size ==> reduces_to(
                    f,
                    sample_of(nth_state(seed, (t * tosses_per_trial) as nat), tosses_per_trial),
                    #[trigger] scalars[t],
                )
            &&& is_histogram_of(scalars, h1)
        };
    let sc2 = choose|scalars: Seq<u128>|
        {
            &&& scalars.len() == dataset_size
            &&& forall|t: int|
                0 <= t < dataset_size ==> reduces_to(
                    g,
                    sample_of(nth_state(seed, (t * tosses_per_trial) as nat), tosses_per_trial),
                    #[trigger] scalars[t],
                )
            &&& is_histogram_of(scalars, h2)
        };
    assert forall|t: int| 0 <= t < dataset_size implies #[trigger] sc1[t] == sc2[t] by {
        let sample = sample_of(nth_state(seed, (t * tosses_per_trial) as nat), tosses_per_trial);
        assert(reduces_to(f, sample, sc1[t]));
        let s1 = choose|s: &[u128]| s@ == sample && call_ensures(f, (s,), sc1[t]);
        assert(reduces_to(g, sample, sc2[t]));
        let s2 = choose|s: &[u128]| s@ == sample && call_ensures(g, (s,), sc2[t]);
        assert(sc1[t] == m(sample) && sc2[t] == m(sample));
    }
    assert(sc1 =~= sc2);
    lemma_histogram_unique(sc1, h1, h2);
}

/// With a single toss per trial and the identity reduction, the
/// histogram is exactly the frequency distribution of the raw face
/// values drawn.
pub proof fn lemma_single_toss_identity<F: Fn(&[u128]) -> u128>(
    f: F,
    seed: u64,
    dataset_size: nat,
    h: Seq<(u128, usize)>,
)
    requires
        forall|s: &[u128], r: u128|
            call_ensures(f, (s,), r) && s@.len() == 1 ==> r == s@[0],
        experiment_post(f, seed, dataset_size, 1, h),
    ensures
        is_histogram_of(Seq::new(dataset_size, |t: int| face_of(nth_state(seed, t as nat))), h),
{
    let faces = Seq::new(dataset_size, |t: int| face_of(nth_state(seed, t as nat)));
    let sc = choose|scalars: Seq<u128>|
        {
            &&& scalars.len() == dataset_size
            &&& forall|t: int|
                0 <= t < dataset_size ==> reduces_to(
                    f,
                    sample_of(nth_state(seed, (t * 1) as nat), 1),
                    #[trigger] scalars[t],
                )
            &&& is_histogram_of(scalars, h)
        };
    assert forall|t: int| 0 <= t < dataset_size implies #[trigger] sc[t] == faces[t] by {
        let sample = sample_of(nth_state(seed, (t * 1) as nat), 1);
        assert(reduces_to(f, sample, sc[t]));
        let s = choose|s: &[u128]| s@ == sample && call_ensures(f, (s,), sc[t]);
        assert(sample[0] == face_of(nth_state(seed, t as nat)));
    }
    assert(sc =~= faces);
}

} // verus!
