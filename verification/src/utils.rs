use vstd::prelude::*;

verus! {

/// Whether the value at position `i` of `s` occurs again further on.
pub open spec fn repeats_at(s: Seq<usize>, i: int) -> bool {
    exists|j: int| i < j < s.len() && #[trigger] s[j] == s[i]
}

/// Whether `d` is the first value of `s`, going from the front, that occurs
/// in `s` more than once.
pub open spec fn is_first_duplicate(s: Seq<usize>, d: usize) -> bool {
    exists|i: int|
        0 <= i < s.len() && s[i] == d && #[trigger] repeats_at(s, i) && forall|k: int|
            0 <= k < i ==> !repeats_at(s, k)
}

/// The position of the first value of `s` that occurs again further on, or
/// the length of `s` where no value does.
pub open spec fn first_repeat(s: Seq<usize>) -> int
    decreases s.len(),
{
    if s.len() == 0 {
        0
    } else if s.drop_first().contains(s[0]) {
        0
    } else {
        1 + first_repeat(s.drop_first())
    }
}

/// `first_repeat` is the least position whose value occurs again, and is the
/// length of the sequence exactly where its values are all different.
pub proof fn lemma_first_repeat(s: Seq<usize>)
    ensures
        0 <= first_repeat(s) <= s.len(),
        first_repeat(s) < s.len() ==> repeats_at(s, first_repeat(s)),
        forall|k: int| 0 <= k < first_repeat(s) ==> !repeats_at(s, k),
        first_repeat(s) == s.len() <==> s.no_duplicates(),
    decreases s.len(),
{
    if s.len() == 0 {
    } else {
        let t = s.drop_first();
        lemma_first_repeat(t);
        assert forall|k: int| 0 <= k < t.len() implies (repeats_at(t, k) <==> repeats_at(s, k + 1)) by {
            if repeats_at(t, k) {
                let j = choose|j: int| k < j < t.len() && #[trigger] t[j] == t[k];
                assert(s[j + 1] == s[k + 1]);
            }
            if repeats_at(s, k + 1) {
                let j = choose|j: int| k + 1 < j < s.len() && #[trigger] s[j] == s[k + 1];
                assert(t[j - 1] == t[k]);
            }
        }
        if t.contains(s[0]) {
            let j = choose|j: int| 0 <= j < t.len() && #[trigger] t[j] == s[0];
            assert(s[j + 1] == s[0]);
            assert(repeats_at(s, 0));
            assert(s[0] == s[j + 1] && 0 != j + 1);
        } else {
            assert(!repeats_at(s, 0)) by {
                if repeats_at(s, 0) {
                    let j = choose|j: int| 0 < j < s.len() && #[trigger] s[j] == s[0];
                    assert(t[j - 1] == s[0]);
                }
            }
            let r = first_repeat(t);
            assert forall|k: int| 0 <= k < 1 + r implies !repeats_at(s, k) by {
                if k > 0 {
                    assert(!repeats_at(t, k - 1));
                }
            }
            if r < t.len() {
                assert(repeats_at(t, r));
                assert(repeats_at(s, r + 1));
                let j = choose|j: int| r + 1 < j < s.len() && #[trigger] s[j] == s[r + 1];
                assert(!s.no_duplicates());
            } else {
                assert(t.no_duplicates());
                assert forall|i: int, j: int| 0 <= i < s.len() && 0 <= j < s.len() && i != j implies s[i]
                    != s[j] by {
                    if i == 0 {
                        assert(t[j - 1] == s[j]);
                    } else if j == 0 {
                        assert(t[i - 1] == s[i]);
                    } else {
                        assert(t[i - 1] == s[i] && t[j - 1] == s[j]);
                    }
                }
            }
        }
    }
}

/// The first value of `path`, going from the front, that occurs in it more
/// than once, or `None` where all its values are different.
#[verifier::loop_isolation(false)]
pub fn get_duplicate_element(path: &Vec<usize>) -> (found: Option<usize>)
    ensures
        match found {
            Some(d) => is_first_duplicate(path@, d) && 0 <= first_repeat(path@) < path@.len() && d
                == path@[first_repeat(path@)],
            None => path@.no_duplicates(),
        },
{
    proof {
        lemma_first_repeat(path@);
    }
    let n: usize = path.len();
    let mut i: usize = 0;
    while i < n
        invariant
            n == path@.len(),
            i <= n,
            forall|k: int| 0 <= k < i ==> !repeats_at(path@, k),
        decreases n - i,
    {
        let mut j: usize = i + 1;
        while j < n
            invariant
                n == path@.len(),
                i < j <= n,
                forall|m: int| i < m < j ==> path@[m] != path@[i as int],
            decreases n - j,
        {
            if path[j] == path[i] {
                proof {
                    assert(repeats_at(path@, i as int));
                    if first_repeat(path@) > i {
                        assert(!repeats_at(path@, i as int));
                    }
                    if first_repeat(path@) < i {
                        assert(repeats_at(path@, first_repeat(path@)));
                    }
                }
                return Some(path[i]);
            }
            j += 1;
        }
        i += 1;
    }
    proof {
        if first_repeat(path@) < n {
            assert(repeats_at(path@, first_repeat(path@)));
        }
    }
    None
}

} // verus!
