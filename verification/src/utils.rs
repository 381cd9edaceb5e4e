//! Small helpers shared by the proxy.

use vstd::prelude::*;

use crate::SupportedFileType;

verus! {

/// The subsequence of `s` keeping only the first occurrence of each value.
pub open spec fn spec_unique_elements(s: Seq<SupportedFileType>) -> Seq<SupportedFileType>
    decreases s.len(),
{
    if s.len() == 0 {
        Seq::empty()
    } else {
        let u = spec_unique_elements(s.drop_last());
        if u.contains(s.last()) {
            u
        } else {
            u.push(s.last())
        }
    }
}

/// First occurrences are kept, in order, and nothing else.
pub proof fn lemma_unique_elements(s: Seq<SupportedFileType>)
    ensures
        forall|x: SupportedFileType| spec_unique_elements(s).contains(x) <==> s.contains(x),
        forall|i: int, j: int|
            0 <= i < j < spec_unique_elements(s).len() ==> spec_unique_elements(s)[i]
                != spec_unique_elements(s)[j],
    decreases s.len(),
{
    if s.len() > 0 {
        lemma_unique_elements(s.drop_last());
        let u0 = spec_unique_elements(s.drop_last());
        let u = spec_unique_elements(s);
        assert forall|x: SupportedFileType| u.contains(x) implies s.contains(x) by {
            if u0.contains(x) {
                assert(s.drop_last().contains(x));
                let i = choose|i: int| 0 <= i < s.len() - 1 && s.drop_last()[i] == x;
                assert(s[i] == x);
            } else {
                assert(x == s.last());
                assert(s[s.len() - 1] == x);
            }
        }
        assert forall|x: SupportedFileType| s.contains(x) implies u.contains(x) by {
            let i = choose|i: int| 0 <= i < s.len() && s[i] == x;
            if i < s.len() - 1 {
                assert(s.drop_last().contains(x)) by {
                    assert(s.drop_last()[i] == x);
                }
                assert(u0.contains(x));
                if !u0.contains(s.last()) {
                    let j = choose|j: int| 0 <= j < u0.len() && u0[j] == x;
                    assert(u[j] == x);
                }
            } else {
                assert(x == s.last());
                if u0.contains(s.last()) {
                    assert(u.contains(x));
                } else {
                    assert(u[u.len() - 1] == x);
                }
            }
        }
        if !u0.contains(s.last()) {
            assert forall|i: int, j: int| 0 <= i < j < u.len() implies u[i] != u[j] by {
                if j == u.len() - 1 {
                    assert(u0.contains(u0[i]));
                }
            }
        }
    }
}

/// Keep the first occurrence of each element, in first-seen order.
pub fn get_unique_elements(vec: &Vec<SupportedFileType>) -> (r: Vec<SupportedFileType>)
    ensures
        r@ == spec_unique_elements(vec@),
{
    let n = vec.len();
    let mut out: Vec<SupportedFileType> = Vec::new();
    let mut i: usize = 0;
    proof {
        assert(vec@.subrange(0, 0) =~= Seq::<SupportedFileType>::empty());
        assert(out@ =~= spec_unique_elements(vec@.subrange(0, 0)));
    }
    while i < n
        invariant
            n == vec@.len(),
            i <= n,
            out@ == spec_unique_elements(vec@.subrange(0, i as int)),
        decreases n - i,
    {
        let x = vec[i];
        let mut seen = false;
        let m = out.len();
        let mut j: usize = 0;
        while j < m
            invariant
                m == out@.len(),
                j <= m,
                seen == exists|k: int| 0 <= k < j && out@[k] == x,
            decreases m - j,
        {
            if out[j] == x {
                seen = true;
            }
            j += 1;
        }
        proof {
            assert(seen == out@.contains(x));
            let p = vec@.subrange(0, i + 1 as int);
            assert(p.drop_last() =~= vec@.subrange(0, i as int));
            assert(p.last() == x);
        }
        if !seen {
            out.push(x);
        }
        i += 1;
    }
    proof {
        assert(vec@.subrange(0, n as int) =~= vec@);
    }
    out
}

/// Relies on `std::time::SystemTime::now`: the seconds of Unix time at the
/// call, used only to stamp a `ParsedDiff` for diagnostics. Nothing can be
/// promised of the clock.
#[verifier::external_body]
pub fn current_timestamp() -> u64 {
    match std::time::SystemTime::now().duration_since(std::time::UNIX_EPOCH) {
        Ok(d) => d.as_secs(),
        Err(_) => 0,
    }
}

} // verus!
