use vstd::prelude::*;
use rand::rngs::StdRng;
use rand::{Rng, SeedableRng};

verus! {

#[verifier::external_type_specification]
#[verifier::external_body]
pub struct ExStdRng(StdRng);

/// Calls `StdRng::seed_from_u64`: a generator whose stream is fixed by `seed`.
#[verifier::external_body]
fn std_rng_seeded(seed: u64) -> StdRng {
    StdRng::seed_from_u64(seed)
}

/// Calls `StdRng::from_entropy`: a generator seeded from the operating system.
#[verifier::external_body]
fn std_rng_from_entropy() -> StdRng {
    StdRng::from_entropy()
}

/// Calls `Rng::gen_range` on `lo..hi`, which returns a value of the half-open
/// range and panics when the range is empty; which value comes out is random.
#[verifier::external_body]
fn std_rng_gen_range(rng: &mut StdRng, lo: usize, hi: usize) -> (r: usize)
    requires
        lo < hi,
    ensures
        lo <= r < hi,
{
    rng.gen_range(lo..hi)
}

/// Calls `Rng::gen_ratio`, which panics unless `0 < denominator` and
/// `numerator <= denominator`, always returns `false` for a numerator of zero
/// and always `true` when the numerator equals the denominator.
#[verifier::external_body]
fn std_rng_gen_ratio(rng: &mut StdRng, numerator: u32, denominator: u32) -> (r: bool)
    requires
        0 < denominator,
        numerator <= denominator,
    ensures
        numerator == 0 ==> !r,
        numerator == denominator ==> r,
{
    rng.gen_ratio(numerator, denominator)
}

/// Calls `<[T]>::swap`, which exchanges the two elements.
#[verifier::external_body]
fn vec_swap<T>(v: &mut Vec<T>, i: usize, j: usize)
    requires
        i < old(v)@.len(),
        j < old(v)@.len(),
    ensures
        final(v)@ == old(v)@.update(i as int, old(v)@[j as int]).update(j as int, old(v)@[i as int]),
{
    v.swap(i, j)
}

/// `a` holds the elements of `b`, each exactly once, in some order:
/// `a[k] == b[p[k]]` for a permutation `p` of the positions.
pub open spec fn is_permutation_of<T>(a: Seq<T>, b: Seq<T>) -> bool {
    &&& a.len() == b.len()
    &&& exists|p: Seq<int>| is_index_permutation(p, b.len()) && forall|k: int| 0 <= k < a.len() ==> #[trigger] a[k] == b[p[k]]
}

/// `p` lists each position below `n` exactly once.
pub open spec fn is_index_permutation(p: Seq<int>, n: nat) -> bool {
    &&& p.len() == n
    &&& p.no_duplicates()
    &&& forall|k: int| 0 <= k < p.len() ==> 0 <= #[trigger] p[k] < n
}

/// `r` is made of clones of elements of `items` taken at distinct positions.
pub open spec fn is_sample_of<T: Clone>(r: Seq<T>, items: Seq<T>) -> bool {
    exists|idx: Seq<int>|
        {
            &&& idx.len() == r.len()
            &&& idx.no_duplicates()
            &&& forall|k: int| 0 <= k < idx.len() ==> 0 <= #[trigger] idx[k] < items.len() && cloned::<T>(items[idx[k]], r[k])
        }
}

/// Random number generator handed to the genetic operators.
pub struct GeneticRng {
    inner: StdRng,
}

impl GeneticRng {
    /// A generator whose stream is fixed by `seed`.
    pub fn seeded(seed: u64) -> (r: Self) {
        GeneticRng { inner: std_rng_seeded(seed) }
    }

    /// A generator seeded from the operating system.
    pub fn entropy() -> (r: Self) {
        GeneticRng { inner: std_rng_from_entropy() }
    }

    /// A generator seeded by `random_seed` where one is given, else from the
    /// operating system.
    pub fn from_seed_option(random_seed: Option<u64>) -> (r: Self) {
        match random_seed {
            Some(seed) => Self::seeded(seed),
            None => Self::entropy(),
        }
    }

    /// A value of the half-open range `lo..hi`.
    pub fn gen_range(&mut self, lo: usize, hi: usize) -> (r: usize)
        requires
            lo < hi,
        ensures
            lo <= r < hi,
    {
        std_rng_gen_range(&mut self.inner, lo, hi)
    }

    /// `true` with probability `numerator / denominator`: never for a zero
    /// numerator, always when the numerator equals the denominator.
    pub fn gen_ratio(&mut self, numerator: u32, denominator: u32) -> (r: bool)
        requires
            0 < denominator,
            numerator <= denominator,
        ensures
            numerator == 0 ==> !r,
            numerator == denominator ==> r,
    {
        std_rng_gen_ratio(&mut self.inner, numerator, denominator)
    }

    /// A position below `len`, or 0 for an empty range.
    pub fn random_index(&mut self, len: usize) -> (r: usize)
        ensures
            len == 0 ==> r == 0,
            len > 0 ==> r < len,
    {
        if len == 0 {
            0
        } else {
            self.gen_range(0, len)
        }
    }

    /// A clone of one of `items`, or `None` when there is none.
    pub fn random_choice<T: Clone>(&mut self, items: &[T]) -> (r: Option<T>)
        ensures
            r is None <==> items@.len() == 0,
            r is Some ==> exists|i: int| 0 <= i < items@.len() && cloned::<T>(items@[i], r->0),
    {
        if items.len() == 0 {
            None
        } else {
            let i = self.random_index(items.len());
            let x = items[i].clone();
            Some(x)
        }
    }

    /// `min(count, n)` distinct positions below `n`, in random order (a
    /// partial Fisher-Yates shuffle of `0..n`); none when `n` or `count` is 0.
    pub fn sample_indices(&mut self, n: usize, count: usize) -> (r: Vec<usize>)
        ensures
            r@.len() == if n == 0 || count == 0 { 0 } else if count < n { count as int } else { n as int },
            r@.no_duplicates(),
            forall|k: int| 0 <= k < r@.len() ==> #[trigger] r@[k] < n,
    {
        if n == 0 || count == 0 {
            return Vec::new();
        }
        let count = if count < n { count } else { n };
        let mut indices: Vec<usize> = Vec::new();
        let mut i: usize = 0;
        while i < n
            invariant
                i <= n,
                indices@.len() == i,
                forall|k: int| 0 <= k < i ==> #[trigger] indices@[k] == k,
            decreases n - i,
        {
            indices.push(i);
            i = i + 1;
        }
        let mut i: usize = 0;
        while i < count
            invariant
                count <= n,
                i <= count,
                indices@.len() == n,
                indices@.no_duplicates(),
                forall|k: int| 0 <= k < n ==> #[trigger] indices@[k] < n,
            decreases count - i,
        {
            let j = self.gen_range(i, n);
            let ghost before = indices@;
            vec_swap(&mut indices, i, j);
            proof {
                assert forall|a: int, b: int| 0 <= a < b < n implies indices@[a] != indices@[b] by {
                    let pa = if a == i { j as int } else if a == j { i as int } else { a };
                    let pb = if b == i { j as int } else if b == j { i as int } else { b };
                    assert(indices@[a] == before[pa] && indices@[b] == before[pb]);
                }
                assert forall|k: int| 0 <= k < n implies #[trigger] indices@[k] < n by {
                    let pk = if k == i { j as int } else if k == j { i as int } else { k };
                    assert(indices@[k] == before[pk]);
                }
            }
            i = i + 1;
        }
        let mut r: Vec<usize> = Vec::new();
        let mut k: usize = 0;
        while k < count
            invariant
                count <= n,
                k <= count,
                indices@.len() == n,
                indices@.no_duplicates(),
                forall|t: int| 0 <= t < n ==> #[trigger] indices@[t] < n,
                r@ == indices@.take(k as int),
            decreases count - k,
        {
            r.push(indices[k]);
            proof {
                assert(indices@.take(k + 1) =~= indices@.take(k as int).push(indices@[k as int]));
            }
            k = k + 1;
        }
        proof {
            assert forall|a: int, b: int| 0 <= a < b < r@.len() implies r@[a] != r@[b] by {
                assert(r@[a] == indices@[a] && r@[b] == indices@[b]);
            }
        }
        r
    }

    /// Clones of `min(count, items.len())` of `items`, taken at distinct
    /// positions in random order.
    pub fn sample<T: Clone>(&mut self, items: &[T], count: usize) -> (r: Vec<T>)
        ensures
            r@.len() == if count < items@.len() { count as int } else { items@.len() as int },
            is_sample_of(r@, items@),
    {
        let idx = self.sample_indices(items.len(), count);
        let mut r: Vec<T> = Vec::new();
        let mut k: usize = 0;
        while k < idx.len()
            invariant
                idx@.no_duplicates(),
                forall|t: int| 0 <= t < idx@.len() ==> #[trigger] idx@[t] < items@.len(),
                k <= idx@.len(),
                r@.len() == k,
                forall|t: int| 0 <= t < k ==> cloned::<T>(items@[idx@[t] as int], #[trigger] r@[t]),
            decreases idx@.len() - k,
        {
            let x = items[idx[k]].clone();
            r.push(x);
            k = k + 1;
        }
        proof {
            let ix = Seq::new(idx@.len(), |t: int| idx@[t] as int);
            assert(ix.no_duplicates()) by {
                assert forall|a: int, b: int| 0 <= a < b < ix.len() implies ix[a] != ix[b] by {
                    assert(idx@[a] != idx@[b]);
                }
            }
            assert forall|t: int| 0 <= t < ix.len() implies 0 <= #[trigger] ix[t] < items@.len() && cloned::<T>(items@[ix[t]], r@[t]) by {
                assert(idx@[t] < items@.len());
            }
        }
        r
    }

    /// Puts `items` in a random order (Fisher-Yates from the back).
    pub fn shuffle<T>(&mut self, items: &mut Vec<T>)
        ensures
            is_permutation_of(final(items)@, old(items)@),
    {
        let n = items.len();
        let ghost orig = items@;
        let ghost mut perm: Seq<int> = Seq::new(n as nat, |k: int| k);
        let mut i: usize = n;
        proof {
            assert forall|a: int, b: int| 0 <= a < b < n implies perm[a] != perm[b] by {}
        }
        while i > 1
            invariant
                i <= n,
                n == orig.len(),
                items@.len() == n,
                is_index_permutation(perm, n as nat),
                forall|k: int| 0 <= k < n ==> #[trigger] items@[k] == orig[perm[k]],
            decreases i,
        {
            i = i - 1;
            let j = self.gen_range(0, i + 1);
            let ghost before = items@;
            let ghost pbefore = perm;
            vec_swap(items, i, j);
            proof {
                perm = pbefore.update(i as int, pbefore[j as int]).update(j as int, pbefore[i as int]);
                assert forall|a: int, b: int| 0 <= a < b < n implies perm[a] != perm[b] by {
                    let pa = if a == i { j as int } else if a == j { i as int } else { a };
                    let pb = if b == i { j as int } else if b == j { i as int } else { b };
                    assert(perm[a] == pbefore[pa] && perm[b] == pbefore[pb]);
                }
                assert forall|k: int| 0 <= k < perm.len() implies 0 <= #[trigger] perm[k] < n by {
                    let pk = if k == i { j as int } else if k == j { i as int } else { k };
                    assert(perm[k] == pbefore[pk]);
                }
                assert forall|k: int| 0 <= k < n implies #[trigger] items@[k] == orig[perm[k]] by {
                    let pk = if k == i { j as int } else if k == j { i as int } else { k };
                    assert(items@[k] == before[pk]);
                    assert(perm[k] == pbefore[pk]);
                }
            }
        }
        proof {
            assert(is_index_permutation(perm, orig.len()));
            assert forall|k: int| 0 <= k < items@.len() implies #[trigger] items@[k] == orig[perm[k]] by {}
        }
    }
}

/// A position below `len`, or 0 for an empty range, drawn from a generator
/// seeded from the operating system.
pub fn random_index(len: usize) -> (r: usize)
    ensures
        len == 0 ==> r == 0,
        len > 0 ==> r < len,
{
    let mut rng = GeneticRng::entropy();
    rng.random_index(len)
}

/// A clone of one of `items`, or `None` when there is none.
pub fn random_choice<T: Clone>(items: &[T]) -> (r: Option<T>)
    ensures
        r is None <==> items@.len() == 0,
        r is Some ==> exists|i: int| 0 <= i < items@.len() && cloned::<T>(items@[i], r->0),
{
    let mut rng = GeneticRng::entropy();
    rng.random_choice(items)
}

/// Clones of `min(count, items.len())` of `items`, taken at distinct positions.
pub fn sample<T: Clone>(items: &[T], count: usize) -> (r: Vec<T>)
    ensures
        r@.len() == if count < items@.len() { count as int } else { items@.len() as int },
        is_sample_of(r@, items@),
{
    let mut rng = GeneticRng::entropy();
    rng.sample(items, count)
}

/// Puts `items` in a random order.
pub fn shuffle<T>(items: &mut Vec<T>)
    ensures
        is_permutation_of(final(items)@, old(items)@),
{
    let mut rng = GeneticRng::entropy();
    rng.shuffle(items)
}

/// The positions `0..n`, in order.
pub fn index_range(n: usize) -> (r: Vec<usize>)
    ensures
        r@ == range_seq(n as nat),
{
    let mut r: Vec<usize> = Vec::new();
    let mut i: usize = 0;
    while i < n
        invariant
            i <= n,
            r@ == range_seq(i as nat),
        decreases n - i,
    {
        r.push(i);
        proof {
            assert(r@ =~= range_seq((i + 1) as nat));
        }
        i = i + 1;
    }
    r
}

/// The sequence `0, 1, ..., n - 1`.
pub open spec fn range_seq(n: nat) -> Seq<usize> {
    Seq::new(n, |k: int| k as usize)
}

/// A permutation of the positions below `n` lists each of them.
pub proof fn lemma_permuted_range(v: Seq<usize>, n: nat)
    requires
        n <= usize::MAX,
        is_permutation_of(v, range_seq(n)),
    ensures
        v.len() == n,
        v.no_duplicates(),
        forall|k: int| 0 <= k < v.len() ==> #[trigger] v[k] < n,
        forall|t: usize| t < n ==> #[trigger] v.contains(t),
{
    let p = choose|p: Seq<int>|
        is_index_permutation(p, n) && forall|k: int| 0 <= k < v.len() ==> #[trigger] v[k] == range_seq(n)[p[k]];
    assert forall|k: int| 0 <= k < v.len() implies #[trigger] v[k] == p[k] by {
        assert(v[k] == range_seq(n)[p[k]]);
    }
    assert(v.no_duplicates()) by {
        assert forall|a: int, b: int| 0 <= a < b < v.len() implies v[a] != v[b] by {
            assert(p[a] != p[b]);
        }
    }
    p.unique_seq_to_set();
    vstd::set_lib::lemma_int_range(0, n as int);
    let range = vstd::set_lib::set_int_range(0, n as int);
    assert(p.to_set().subset_of(range)) by {
        assert forall|x: int| p.to_set().contains(x) implies range.contains(x) by {
            let k = choose|k: int| 0 <= k < p.len() && p[k] == x;
        }
    }
    vstd::set_lib::lemma_subset_equality(p.to_set(), range);
    assert forall|t: usize| t < n implies #[trigger] v.contains(t) by {
        assert(range.contains(t as int));
        assert(p.to_set().contains(t as int));
        let k = choose|k: int| 0 <= k < p.len() && p[k] == t as int;
        assert(v[k] == t);
    }
}

/// Every element of a permutation of `b` is an element of `b`.
pub proof fn lemma_permutation_elements<T>(a: Seq<T>, b: Seq<T>)
    requires
        is_permutation_of(a, b),
    ensures
        a.len() == b.len(),
        forall|k: int| 0 <= k < a.len() ==> b.contains(#[trigger] a[k]),
{
    let p = choose|p: Seq<int>| is_index_permutation(p, b.len()) && forall|k: int| 0 <= k < a.len() ==> #[trigger] a[k] == b[p[k]];
    assert forall|k: int| 0 <= k < a.len() implies b.contains(#[trigger] a[k]) by {
        assert(a[k] == b[p[k]]);
        assert(0 <= p[k] < b.len());
    }
}

} // verus!
