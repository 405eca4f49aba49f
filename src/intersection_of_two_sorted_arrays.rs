//! The intersection of two sorted arrays, by a single merge-like pass.
use vstd::prelude::*;

verus! {

/// `s` never decreases.
pub open spec fn sorted(s: Seq<i32>) -> bool {
    forall|a: int, b: int| 0 <= a <= b < s.len() ==> s[a] <= s[b]
}

/// `s` strictly increases.
pub open spec fn strictly_increasing(s: Seq<i32>) -> bool {
    forall|a: int, b: int| 0 <= a < b < s.len() ==> s[a] < s[b]
}

/// The values found in both sorted arrays, each once, in increasing order.
pub fn intersection(nums1: Vec<i32>, nums2: Vec<i32>) -> (result: Vec<i32>)
    requires
        sorted(nums1@),
        sorted(nums2@),
    ensures
        strictly_increasing(result@),
        forall|x: i32| result@.contains(x) <==> (nums1@.contains(x) && nums2@.contains(x)),
{
    let ghost a = nums1@;
    let ghost b = nums2@;
    let mut result: Vec<i32> = Vec::new();
    let mut i: usize = 0;
    let mut j: usize = 0;
    while i < nums1.len() && j < nums2.len()
        invariant
            a == nums1@,
            b == nums2@,
            sorted(a),
            sorted(b),
            i <= a.len(),
            j <= b.len(),
            strictly_increasing(result@),
            forall|x: i32|
                #![trigger result@.contains(x)]
                result@.contains(x) <==> exists|k: int, l: int|
                    0 <= k < i && 0 <= l < j && a[k] == x && b[l] == x,
            forall|l: int, k: int|
                #![trigger b[l], a[k]]
                0 <= l < j && i <= k < a.len() ==> b[l] <= a[k] && (b[l] == a[k]
                    ==> result@.contains(b[l])),
            forall|k: int, l: int|
                #![trigger a[k], b[l]]
                0 <= k < i && j <= l < b.len() ==> a[k] <= b[l] && (a[k] == b[l]
                    ==> result@.contains(a[k])),
        decreases a.len() - i + b.len() - j,
    {
        let x = nums1[i];
        let y = nums2[j];
        if x < y {
            i += 1;
        } else if x > y {
            j += 1;
        } else {
            let ghost before = result@;
            if result.len() == 0 || result[result.len() - 1] != x {
                proof {
                    if before.len() > 0 {
                        let last = before[before.len() - 1];
                        assert(before.contains(last));
                        let (k, l) = choose|k: int, l: int|
                            0 <= k < i && 0 <= l < j && a[k] == last && b[l] == last;
                        assert(a[k] <= a[i as int]);
                    }
                }
                result.push(x);
                proof {
                    assert forall|p: int, q: int| 0 <= p < q < result@.len() implies result@[p]
                        < result@[q] by {
                        if q == result@.len() - 1 && p < q {
                            assert(result@[p] == before[p]);
                            if before.len() > 0 {
                                assert(before[p] <= before[before.len() - 1]);
                            }
                        }
                    }
                    assert forall|v: i32| before.contains(v) implies #[trigger] result@.contains(v) by {
                        let t = choose|t: int| 0 <= t < before.len() && before[t] == v;
                        assert(result@[t] == v);
                    }
                    assert(result@[result@.len() - 1] == x);
                }
            } else {
                proof {
                    assert(result@[result@.len() - 1] == x);
                }
            }
            proof {
                assert(result@.contains(x)) by {
                    assert(result@[result@.len() - 1] == x);
                }
                assert forall|v: i32| #[trigger] result@.contains(v) implies before.contains(v) || v
                    == x by {
                    if result@.len() > before.len() {
                        let t = choose|t: int| 0 <= t < result@.len() && result@[t] == v;
                        if t < before.len() {
                            assert(before[t] == v);
                        }
                    }
                }
            }
            i += 1;
            j += 1;
        }
    }
    proof {
        assert forall|x: i32| (a.contains(x) && b.contains(x)) implies #[trigger] result@.contains(x) by {
            let k = choose|k: int| 0 <= k < a.len() && a[k] == x;
            let l = choose|l: int| 0 <= l < b.len() && b[l] == x;
            if k < i && l < j {
            } else if k >= i {
                assert(b[l] == a[k]);
            } else {
                assert(a[k] == b[l]);
            }
        }
        assert forall|x: i32| #[trigger] result@.contains(x) implies a.contains(x) && b.contains(x) by {
            let (k, l) = choose|k: int, l: int| 0 <= k < i && 0 <= l < j && a[k] == x && b[l] == x;
            assert(a[k] == x);
            assert(b[l] == x);
        }
    }
    result
}

} // verus!
