//! Append-only label dictionary.
//!
//! A dictionary is a contiguous byte buffer holding concatenated label
//! text.  A `StateRef` addresses one label by offset and length; two
//! references are equal as labels iff the bytes they stand for are
//! equal, not iff the references are bit-identical.  Dictionaries only
//! grow, so a reference stays valid, and keeps its label, for the
//! dictionary's lifetime.

use vstd::prelude::*;

verus! {

/// Reference into a label dictionary: `len` bytes starting at `off`.
#[derive(Clone, Copy, Debug, PartialEq, Eq, Structural)]
pub struct StateRef {
    pub off: usize,
    pub len: usize,
}

/// A reference is valid when it lies wholly inside the dictionary.
pub open spec fn ref_valid(dict: Seq<u8>, r: StateRef) -> bool {
    r.off + r.len <= dict.len()
}

/// The label text a reference stands for.
pub open spec fn label_of(dict: Seq<u8>, r: StateRef) -> Seq<u8> {
    dict.subrange(r.off as int, r.off + r.len)
}

/// `label` occurs in `dict` starting at position `j`.
pub open spec fn occurs_at(dict: Seq<u8>, label: Seq<u8>, j: int) -> bool {
    &&& 0 <= j
    &&& j + label.len() <= dict.len()
    &&& dict.subrange(j, j + label.len()) == label
}

/// `label` occurs somewhere in `dict`.
pub open spec fn occurs(dict: Seq<u8>, label: Seq<u8>) -> bool {
    exists|j: int| occurs_at(dict, label, j)
}

/// Extending a dictionary keeps every valid reference valid and leaves
/// the label it stands for unchanged.
pub proof fn lemma_label_stable(d1: Seq<u8>, d2: Seq<u8>, r: StateRef)
    requires
        ref_valid(d1, r),
        d1.len() <= d2.len(),
        d2.subrange(0, d1.len() as int) == d1,
    ensures
        ref_valid(d2, r),
        label_of(d2, r) == label_of(d1, r),
{
    assert forall|i: int| 0 <= i < r.len implies label_of(d2, r)[i] == label_of(d1, r)[i] by {
        assert(d2.subrange(0, d1.len() as int)[r.off + i] == d2[r.off + i]);
    }
    assert(label_of(d2, r) =~= label_of(d1, r));
}

/// A valid reference is itself an occurrence of its label.
pub proof fn lemma_ref_occurs(dict: Seq<u8>, r: StateRef)
    requires
        ref_valid(dict, r),
    ensures
        occurs(dict, label_of(dict, r)),
{
    assert(occurs_at(dict, label_of(dict, r), r.off as int));
}

/// Materialize a reference: a copy of the label bytes it stands for.
pub fn materialize(dict: &Vec<u8>, r: StateRef) -> (out: Vec<u8>)
    requires
        ref_valid(dict@, r),
    ensures
        out@ == label_of(dict@, r),
{
    let dlen = dict.len();
    let mut out: Vec<u8> = Vec::new();
    let mut i: usize = 0;
    while i < r.len
        invariant
            ref_valid(dict@, r),
            dlen == dict@.len(),
            i <= r.len,
            out@ == dict@.subrange(r.off as int, r.off + i),
        decreases r.len - i,
    {
        out.push(dict[r.off + i]);
        proof {
            assert(out@ =~= dict@.subrange(r.off as int, r.off + i + 1));
        }
        i += 1;
    }
    proof {
        assert(out@ =~= label_of(dict@, r));
    }
    out
}

/// Compare the labels two references stand for, each against its own
/// dictionary.
pub fn labels_equal(d1: &Vec<u8>, r1: StateRef, d2: &Vec<u8>, r2: StateRef) -> (eq: bool)
    requires
        ref_valid(d1@, r1),
        ref_valid(d2@, r2),
    ensures
        eq == (label_of(d1@, r1) == label_of(d2@, r2)),
{
    if r1.len != r2.len {
        proof {
            assert(label_of(d1@, r1).len() != label_of(d2@, r2).len());
        }
        return false;
    }
    let d1len = d1.len();
    let d2len = d2.len();
    let mut i: usize = 0;
    while i < r1.len
        invariant
            ref_valid(d1@, r1),
            ref_valid(d2@, r2),
            d1len == d1@.len(),
            d2len == d2@.len(),
            r1.len == r2.len,
            i <= r1.len,
            forall|k: int| 0 <= k < i ==> label_of(d1@, r1)[k] == label_of(d2@, r2)[k],
        decreases r1.len - i,
    {
        if d1[r1.off + i] != d2[r2.off + i] {
            proof {
                assert(label_of(d1@, r1)[i as int] != label_of(d2@, r2)[i as int]);
            }
            return false;
        }
        proof {
            assert(label_of(d1@, r1)[i as int] == label_of(d2@, r2)[i as int]);
        }
        i += 1;
    }
    proof {
        assert(label_of(d1@, r1) =~= label_of(d2@, r2));
    }
    true
}

/// Append a label to the dictionary and return its fresh reference.
///
/// Repeated distinct calls each get a fresh handle: the dictionary does
/// not deduplicate; callers deduplicate by searching their duration
/// records first.
pub fn entry(dict: &mut Vec<u8>, label: &Vec<u8>) -> (r: StateRef)
    ensures
        final(dict)@ == old(dict)@ + label@,
        r.off == old(dict)@.len(),
        r.len == label@.len(),
        ref_valid(final(dict)@, r),
        label_of(final(dict)@, r) == label@,
{
    let off = dict.len();
    let mut i: usize = 0;
    while i < label.len()
        invariant
            off == old(dict)@.len(),
            i <= label@.len(),
            dict@ == old(dict)@ + label@.subrange(0, i as int),
        decreases label@.len() - i,
    {
        dict.push(label[i]);
        proof {
            assert(dict@ =~= old(dict)@ + label@.subrange(0, i + 1));
        }
        i += 1;
    }
    proof {
        assert(dict@ =~= old(dict)@ + label@);
        assert(label_of(dict@, StateRef { off: old(dict)@.len() as usize, len: label@.len() as usize })
            =~= label@);
    }
    StateRef { off, len: label.len() }
}

/// Whether `label` occurs in `dict` at position `at`.
fn match_at(dict: &Vec<u8>, at: usize, label: &Vec<u8>) -> (eq: bool)
    requires
        at + label@.len() <= dict@.len(),
    ensures
        eq == occurs_at(dict@, label@, at as int),
{
    let dlen = dict.len();
    let mut i: usize = 0;
    while i < label.len()
        invariant
            at + label@.len() <= dict@.len(),
            dlen == dict@.len(),
            i <= label@.len(),
            forall|k: int| 0 <= k < i ==> dict@[at + k] == label@[k],
        decreases label@.len() - i,
    {
        if dict[at + i] != label[i] {
            proof {
                assert(!occurs_at(dict@, label@, at as int)) by {
                    assert(dict@.subrange(at as int, at + label@.len())[i as int]
                        == dict@[at + i]);
                }
            }
            return false;
        }
        i += 1;
    }
    proof {
        assert(dict@.subrange(at as int, at + label@.len()) =~= label@);
    }
    true
}

/// Look up a label already known to be present and return a reference
/// standing for it.  The merge algorithm calls this exactly where it
/// has already proven the label exists, so absence is unreachable.
pub fn existing_entry(dict: &Vec<u8>, label: &Vec<u8>) -> (r: StateRef)
    requires
        occurs(dict@, label@),
    ensures
        ref_valid(dict@, r),
        r.len == label@.len(),
        label_of(dict@, r) == label@,
{
    if label.len() == 0 {
        let r = StateRef { off: 0, len: 0 };
        proof {
            assert(label_of(dict@, r) =~= label@);
        }
        return r;
    }
    if label.len() > dict.len() {
        proof {
            let j = choose|j: int| occurs_at(dict@, label@, j);
            assert(false);
        }
        return StateRef { off: 0, len: 0 };
    }
    let bound = dict.len() - label.len();
    let mut j: usize = 0;
    while j <= bound
        invariant
            1 <= label@.len() <= dict@.len(),
            bound == dict@.len() - label@.len(),
            j <= bound + 1,
            forall|jj: int| 0 <= jj < j ==> !occurs_at(dict@, label@, jj),
            occurs(dict@, label@),
        decreases bound + 1 - j,
    {
        if match_at(dict, j, label) {
            return StateRef { off: j, len: label.len() };
        }
        j += 1;
    }
    proof {
        let j0 = choose|j0: int| occurs_at(dict@, label@, j0);
        assert(j0 <= bound);
        assert(false);
    }
    StateRef { off: 0, len: 0 }
}

} // verus!
