//! Best-effort source-location selection for diagnostics.
//!
//! When a handler faults, the caller may capture a stack trace and ask
//! which resolved frame is the first one whose source path lies in the
//! caller's own tree. The trace capture and symbol resolution are opaque,
//! environment-dependent collaborators; what is decidable from plain
//! values — picking the first path that contains the marker — is done
//! here.

use vstd::prelude::*;
use vstd::string::StrSliceExecFns;

verus! {

/// The needle occurs in the haystack starting at character offset `i`.
pub open spec fn match_at(hay: Seq<char>, needle: Seq<char>, i: int) -> bool {
    &&& 0 <= i
    &&& i + needle.len() <= hay.len()
    &&& hay.subrange(i, i + needle.len() as int) == needle
}

/// The needle occurs somewhere in the haystack.
pub open spec fn contains_marker(hay: Seq<char>, needle: Seq<char>) -> bool {
    exists|i: int| match_at(hay, needle, i)
}

/// Whether `needle` occurs as a contiguous run of characters in `hay`.
pub fn contains_str(hay: &str, needle: &str) -> (r: bool)
    ensures
        r == contains_marker(hay@, needle@),
{
    let hl: usize = hay.unicode_len();
    let nl: usize = needle.unicode_len();
    if nl == 0 {
        proof {
            assert(hay@.subrange(0, 0) =~= needle@);
            assert(match_at(hay@, needle@, 0));
        }
        return true;
    }
    if nl > hl {
        proof {
            assert forall|i: int| !match_at(hay@, needle@, i) by {}
        }
        return false;
    }
    let mut i: usize = 0;
    while i <= hl - nl
        invariant
            nl == needle@.len(),
            hl == hay@.len(),
            1 <= nl <= hl,
            i <= hl - nl + 1,
            forall|p: int| 0 <= p < i ==> !match_at(hay@, needle@, p),
        decreases hl - nl - i + 1,
    {
        let mut j: usize = 0;
        let mut matches_here: bool = true;
        while j < nl
            invariant
                nl == needle@.len(),
                hl == hay@.len(),
                nl <= hl,
                i <= hl - nl,
                j <= nl,
                matches_here ==> forall|q: int| 0 <= q < j ==> hay@[i + q] == needle@[q],
                !matches_here ==> !match_at(hay@, needle@, i as int),
            decreases nl - j,
        {
            if matches_here {
                let c1 = hay.get_char(i + j);
                let c2 = needle.get_char(j);
                if c1 != c2 {
                    proof {
                        if match_at(hay@, needle@, i as int) {
                            assert(hay@.subrange(i as int, i + nl as int)[j as int] == hay@[
                                i + j
                            ]);
                        }
                    }
                    matches_here = false;
                }
            }
            j += 1;
        }
        if matches_here {
            proof {
                assert(hay@.subrange(i as int, i + nl as int) =~= needle@);
                assert(match_at(hay@, needle@, i as int));
            }
            return true;
        }
        i += 1;
    }
    proof {
        assert forall|p: int| !match_at(hay@, needle@, p) by {
            if 0 <= p < i {
            }
        }
    }
    false
}

/// The index of the first path that contains the marker, if any: among
/// the resolved frame paths of a captured trace, this picks the frame
/// reported as the best-effort user source location.
pub fn find_marked(files: &Vec<String>, marker: &str) -> (r: Option<usize>)
    ensures
        match r {
            Some(k) => {
                &&& k < files@.len()
                &&& contains_marker(files@[k as int]@, marker@)
                &&& forall|j: int|
                    0 <= j < k ==> !(#[trigger] contains_marker(files@[j]@, marker@))
            },
            None => forall|j: int|
                0 <= j < files@.len() ==> !(#[trigger] contains_marker(files@[j]@, marker@)),
        },
{
    let mut k: usize = 0;
    while k < files.len()
        invariant
            k <= files@.len(),
            forall|j: int| 0 <= j < k ==> !(#[trigger] contains_marker(files@[j]@, marker@)),
        decreases files@.len() - k,
    {
        if contains_str(files[k].as_str(), marker) {
            return Some(k);
        }
        k += 1;
    }
    None
}

} // verus!
