//! The longest common prefix of a list of strings.
use vstd::prelude::*;

verus! {

/// The views of a list of string slices.
pub open spec fn str_views(strs: Seq<&str>) -> Seq<Seq<char>> {
    Seq::new(strs.len(), |i: int| strs[i]@)
}

/// `p` starts every string of `strs`.
pub open spec fn is_common_prefix(strs: Seq<Seq<char>>, p: Seq<char>) -> bool {
    forall|i: int|
        0 <= i < strs.len() ==> p.len() <= (#[trigger] strs[i]).len() && p == strs[i].take(
            p.len() as int,
        )
}

/// Returns the longest string that starts every string of `strs`; the empty
/// string when `strs` is empty.
pub fn longest_common_prefix(strs: Vec<&str>) -> (r: String)
    ensures
        strs@.len() == 0 ==> r@ == Seq::<char>::empty(),
        strs@.len() > 0 ==> is_common_prefix(str_views(strs@), r@) && (r@.len() == strs@[0]@.len()
            || !is_common_prefix(str_views(strs@), strs@[0]@.take(r@.len() as int + 1))),
{
    if strs.len() == 0 {
        let r = String::new();
        proof {
            assert(r@ =~= Seq::<char>::empty());
        }
        r
    } else if strs.len() == 1 {
        let r = String::from_str(strs[0]);
        proof {
            assert(r@ =~= strs@[0]@.take(r@.len() as int));
        }
        r
    } else {
        find_longest_common_prefix(strs)
    }
}

/// The work of `longest_common_prefix` for two or more strings: compares the
/// strings character by character.
pub fn find_longest_common_prefix(strs: Vec<&str>) -> (r: String)
    requires
        strs@.len() >= 1,
    ensures
        is_common_prefix(str_views(strs@), r@),
        r@.len() == strs@[0]@.len() || !is_common_prefix(str_views(strs@), strs@[0]@.take(r@.len() as int + 1)),
{
    let n0 = strs[0].unicode_len();
    let n = strs.len();
    let mut k: usize = 0;
    proof {
        assert forall|i: int| 0 <= i < strs@.len() implies strs@[0]@.take(0).len() <= (
        #[trigger] str_views(strs@)[i]).len() && strs@[0]@.take(0) == str_views(strs@)[i].take(
            strs@[0]@.take(0).len() as int,
        ) by {
            assert(strs@[0]@.take(0) =~= str_views(strs@)[i].take(0));
        }
    }
    loop
        invariant
            strs@.len() == n >= 1,
            k <= n0,
            n0 == strs@[0]@.len(),
            is_common_prefix(str_views(strs@), strs@[0]@.take(k as int)),
        ensures
            k <= n0,
            n0 == strs@[0]@.len(),
            is_common_prefix(str_views(strs@), strs@[0]@.take(k as int)),
            k == n0 || !is_common_prefix(str_views(strs@), strs@[0]@.take(k as int + 1)),
        decreases n0 - k,
    {
        if k == n0 {
            break;
        }
        let c = strs[0].get_char(k);
        let mut j: usize = 1;
        let mut all_match = true;
        while j < n
            invariant
                strs@.len() == n,
                1 <= j <= n,
                k < n0,
                n0 == strs@[0]@.len(),
                c == strs@[0]@[k as int],
                is_common_prefix(str_views(strs@), strs@[0]@.take(k as int)),
                all_match ==> forall|i: int|
                    0 <= i < j ==> k + 1 <= (#[trigger] strs@[i]@).len() && strs@[i]@[k as int]
                        == c,
                !all_match ==> !is_common_prefix(str_views(strs@), strs@[0]@.take(k as int + 1)),
            decreases n - j,
        {
            if all_match {
                if strs[j].unicode_len() <= k {
                    all_match = false;
                    proof {
                        let p1 = strs@[0]@.take(k as int + 1);
                        assert(str_views(strs@)[j as int] == strs@[j as int]@);
                        assert(!(p1.len() <= strs@[j as int]@.len()));
                        assert(!is_common_prefix(str_views(strs@), p1)) by {
                            if is_common_prefix(str_views(strs@), p1) {
                                assert(p1.len() <= (str_views(strs@)[j as int]).len());
                            }
                        }
                    }
                } else if strs[j].get_char(k) != c {
                    all_match = false;
                    proof {
                        let p1 = strs@[0]@.take(k as int + 1);
                        assert(str_views(strs@)[j as int] == strs@[j as int]@);
                        assert(p1[k as int] == c);
                        assert(!is_common_prefix(str_views(strs@), p1)) by {
                            if is_common_prefix(str_views(strs@), p1) {
                                assert(p1 == (str_views(strs@)[j as int]).take(p1.len() as int));
                                assert(p1[k as int] == strs@[j as int]@[k as int]);
                            }
                        }
                    }
                }
            }
            j = j + 1;
        }
        if !all_match {
            break;
        }
        k = k + 1;
        proof {
            let p = strs@[0]@.take(k as int);
            assert forall|i: int| 0 <= i < strs@.len() implies p.len() <= (
            #[trigger] str_views(strs@)[i]).len() && p == str_views(strs@)[i].take(
                p.len() as int,
            ) by {
                assert(str_views(strs@)[i] == strs@[i]@);
                assert(strs@[i]@[k - 1] == c);
                let p0 = strs@[0]@.take(k - 1);
                assert(p0 == str_views(strs@)[i].take(p0.len() as int));
                assert forall|m: int| 0 <= m < k implies p[m] == strs@[i]@[m] by {
                    if m < k - 1 {
                        assert(p0[m] == strs@[i]@.take(k - 1)[m]);
                    }
                }
                assert(p =~= strs@[i]@.take(p.len() as int));
            }
        }
    }
    let prefix = strs[0].substring_char(0, k);
    let r = String::from_str(prefix);
    r
}

} // verus!
