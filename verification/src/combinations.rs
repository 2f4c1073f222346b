//! Enumerates the k-element combinations of a slice, in index order.
use vstd::prelude::*;

verus! {

/// The elements of `c` are drawn from `arr` at strictly increasing indices,
/// all below `bound`.
pub open spec fn picks_below(arr: Seq<i32>, c: Seq<i32>, bound: int) -> bool
    decreases c.len(),
{
    if c.len() == 0 {
        true
    } else {
        exists|i: int|
            0 <= i < bound && i < arr.len() && #[trigger] arr[i] == c.last() && picks_below(
                arr,
                c.drop_last(),
                i,
            )
    }
}

/// `c` is a combination of `arr`: its elements appear at strictly increasing
/// positions.
pub open spec fn is_combination(arr: Seq<i32>, c: Seq<i32>) -> bool {
    picks_below(arr, c, arr.len() as int)
}

proof fn lemma_picks_below_mono(arr: Seq<i32>, c: Seq<i32>, b1: int, b2: int)
    requires
        picks_below(arr, c, b1),
        b1 <= b2,
    ensures
        picks_below(arr, c, b2),
    decreases c.len(),
{
    if c.len() > 0 {
        let i = choose|i: int|
            0 <= i < b1 && i < arr.len() && #[trigger] arr[i] == c.last() && picks_below(
                arr,
                c.drop_last(),
                i,
            );
        assert(0 <= i < b2 && i < arr.len() && arr[i] == c.last() && picks_below(
            arr,
            c.drop_last(),
            i,
        ));
    }
}

/// Every k-element combination of the values of `arr` at positions at or
/// after `start`, in the order a depth-first walk of increasing indices
/// yields them: all groups opening with `arr[start]` first, then the rest.
pub open spec fn spec_combinations(arr: Seq<i32>, k: int, start: int) -> Seq<Seq<i32>>
    decreases arr.len() - start,
{
    if k <= 0 {
        seq![Seq::<i32>::empty()]
    } else if start >= arr.len() {
        Seq::empty()
    } else {
        prepend_to_each(arr[start], spec_combinations(arr, k - 1, start + 1))
            + spec_combinations(arr, k, start + 1)
    }
}

/// Each group of `s`, with `x` put in front.
pub open spec fn prepend_to_each(x: i32, s: Seq<Seq<i32>>) -> Seq<Seq<i32>> {
    Seq::new(s.len(), |i: int| seq![x] + s[i])
}

/// Each group of `s`, with the whole prefix `p` put in front.
pub open spec fn prefixed_by(p: Seq<i32>, s: Seq<Seq<i32>>) -> Seq<Seq<i32>> {
    Seq::new(s.len(), |i: int| p + s[i])
}

/// The views of the produced groups.
pub open spec fn vec_views(s: Seq<Vec<i32>>) -> Seq<Seq<i32>> {
    Seq::new(s.len(), |i: int| s[i]@)
}

/// Returns exactly the k-element combinations of `arr`, each picked at
/// strictly increasing positions, listed completely and in depth-first
/// (lexicographic index) order; their number is therefore the binomial
/// count that `spec_combinations` determines.
pub fn combinations(arr: &[i32], k: usize) -> (r: Vec<Vec<i32>>)
    ensures
        vec_views(r@) == spec_combinations(arr@, k as int, 0),
        forall|j: int|
            0 <= j < r@.len() ==> (#[trigger] r@[j])@.len() == k && is_combination(arr@, r@[j]@),
{
    let mut k_permutations: Vec<Vec<i32>> = Vec::new();
    let mut cur_perm: Vec<i32> = Vec::new();
    get_next(&mut k_permutations, &mut cur_perm, arr, 0, k, 0);
    proof {
        assert(vec_views(k_permutations@) =~~= prefixed_by(
            Seq::empty(),
            spec_combinations(arr@, k as int, 0),
        ));
        assert(prefixed_by(Seq::empty(), spec_combinations(arr@, k as int, 0)) =~~=
            spec_combinations(arr@, k as int, 0));
    }
    k_permutations
}

/// Extends the partial selection `result` depth first, recording every
/// completed group of `k` elements in `permutations`.
pub fn get_next(
    permutations: &mut Vec<Vec<i32>>,
    result: &mut Vec<i32>,
    arr: &[i32],
    depth: usize,
    k: usize,
    prev_index: usize,
)
    requires
        depth <= k,
        depth == old(result)@.len(),
        picks_below(arr@, old(result)@, if depth == 0 {
            0int
        } else {
            prev_index + 1
        }),
        depth > 0 ==> prev_index < arr@.len(),
        depth == 0 ==> prev_index == 0,
        forall|j: int|
            0 <= j < old(permutations)@.len() ==> (#[trigger] old(permutations)@[j])@.len() == k
                && is_combination(arr@, old(permutations)@[j]@),
    ensures
        final(result)@ == old(result)@,
        final(permutations)@.len() >= old(permutations)@.len(),
        forall|j: int|
            0 <= j < final(permutations)@.len() ==> (#[trigger] final(permutations)@[j])@.len()
                == k && is_combination(arr@, final(permutations)@[j]@),
        vec_views(final(permutations)@) == vec_views(old(permutations)@) + prefixed_by(
            old(result)@,
            spec_combinations(
                arr@,
                k - depth,
                if depth == 0 {
                    prev_index as int
                } else {
                    prev_index + 1
                },
            ),
        ),
    decreases k - depth,
{
    let ghost bound: int = if depth == 0 {
        0int
    } else {
        prev_index + 1
    };
    if depth == k {
        if result.len() == k {
            let copy = clone_vec_i32(result);
            proof {
                lemma_picks_below_mono(arr@, result@, bound, arr@.len() as int);
            }
            permutations.push(copy);
            proof {
                assert(vec_views(permutations@) =~~= vec_views(old(permutations)@) + prefixed_by(
                    old(result)@,
                    spec_combinations(arr@, 0, bound),
                ));
            }
        }
        return ;
    }
    // Materializes the slice length so its machine bound is available.
    let alen = arr.len();
    let start = if depth == 0 {
        prev_index
    } else {
        prev_index + 1
    };
    let ghost start_spec: int = if depth == 0 {
        prev_index as int
    } else {
        prev_index + 1
    };
    let mut i = start;
    while i < arr.len()
        invariant
            depth < k <= usize::MAX,
            depth == result@.len(),
            start <= i <= arr@.len(),
            start == start_spec,
            result@ == old(result)@,
            bound == if depth == 0 {
                0int
            } else {
                prev_index + 1
            },
            bound <= start,
            picks_below(arr@, result@, bound),
            permutations@.len() >= old(permutations)@.len(),
            forall|j: int|
                0 <= j < permutations@.len() ==> (#[trigger] permutations@[j])@.len() == k
                    && is_combination(arr@, permutations@[j]@),
            vec_views(old(permutations)@) + prefixed_by(
                old(result)@,
                spec_combinations(arr@, k - depth, start_spec),
            ) == vec_views(permutations@) + prefixed_by(
                old(result)@,
                spec_combinations(arr@, k - depth, i as int),
            ),
        decreases arr@.len() - i,
    {
        result.push(arr[i]);
        proof {
            let c = result@;
            assert(c.last() == arr@[i as int]);
            assert(c.drop_last() =~= old(result)@);
            lemma_picks_below_mono(arr@, old(result)@, bound, i as int);
            assert(picks_below(arr@, c, i + 1));
        }
        let ghost perms_mid = permutations@;
        get_next(permutations, result, arr, depth + 1, k, i);
        result.pop();
        proof {
            assert(result@ =~= old(result)@);
            // One unfolding step: the groups opening with arr[i], then the
            // groups drawn from later positions only.
            lemma_prefix_step(old(result)@, arr@[i as int], arr@, k - depth, i as int);
            assert(vec_views(permutations@) =~~= vec_views(perms_mid) + prefixed_by(
                old(result)@.push(arr@[i as int]),
                spec_combinations(arr@, k - depth - 1, i + 1),
            ));
        }
        i = i + 1;
    }
    proof {
        assert(prefixed_by(old(result)@, spec_combinations(arr@, k - depth, arr@.len() as int))
            =~~= Seq::<Seq<i32>>::empty());
        assert(vec_views(old(permutations)@) + prefixed_by(
            old(result)@,
            spec_combinations(arr@, k - depth, start_spec),
        ) =~~= vec_views(permutations@));
    }
}

/// Splits the combinations from position `i` into the groups that open with
/// `arr[i]` and the groups drawn wholly from later positions.
proof fn lemma_prefix_step(p: Seq<i32>, x: i32, arr: Seq<i32>, kd: int, i: int)
    requires
        kd >= 1,
        0 <= i < arr.len(),
        x == arr[i],
    ensures
        prefixed_by(p, spec_combinations(arr, kd, i)) =~~= prefixed_by(
            p.push(x),
            spec_combinations(arr, kd - 1, i + 1),
        ) + prefixed_by(p, spec_combinations(arr, kd, i + 1)),
{
    let a = spec_combinations(arr, kd - 1, i + 1);
    let b = spec_combinations(arr, kd, i + 1);
    assert(spec_combinations(arr, kd, i) == prepend_to_each(x, a) + b);
    assert forall|j: int| 0 <= j < a.len() implies prefixed_by(p, prepend_to_each(x, a))[j]
        =~= prefixed_by(p.push(x), a)[j] by {
        assert(p + (seq![x] + a[j]) =~= p.push(x) + a[j]);
    }
}

/// A plain element-for-element copy of a vector of numbers.
fn clone_vec_i32(v: &Vec<i32>) -> (r: Vec<i32>)
    ensures
        r@ == v@,
{
    let mut r: Vec<i32> = Vec::new();
    let mut i: usize = 0;
    while i < v.len()
        invariant
            i <= v@.len(),
            r@ == v@.take(i as int),
        decreases v@.len() - i,
    {
        r.push(v[i]);
        i = i + 1;
        proof {
            assert(r@ =~= v@.take(i as int));
        }
    }
    proof {
        assert(r@ =~= v@);
    }
    r
}

} // verus!
