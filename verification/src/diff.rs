//! The snapshot diff engine: compares a working inventory against the
//! baseline and classifies device records as new or missing.
//!
//! A record of the working snapshot is *new* when no record of the baseline
//! equals it; a record of the baseline is *missing* when no record of the
//! working snapshot equals it.  The scan is a full cross comparison: there
//! is no device identity apart from full record equality, so a device whose
//! single attribute changed is reported as new (its current form) and
//! missing (its old form) at once.

use vstd::prelude::*;
use crate::device::{Dev, DevV, dev_eq};

verus! {

/// A snapshot of devices, as values: enumeration order is kept.
pub open spec fn snap_view(s: Seq<Dev>) -> Seq<DevV> {
    s.map_values(|d: Dev| d@)
}

/// Whether some record of snapshot `s` equals `d`.
pub open spec fn snap_contains(s: Seq<DevV>, d: DevV) -> bool {
    exists|j: int| 0 <= j < s.len() && dev_eq(s[j], d)
}

/// The records of `w` that no record of `b` equals, in the order of `w`.
pub open spec fn new_devs(b: Seq<DevV>, w: Seq<DevV>) -> Seq<DevV>
    decreases w.len(),
{
    if w.len() == 0 {
        Seq::empty()
    } else if snap_contains(b, w.last()) {
        new_devs(b, w.drop_last())
    } else {
        new_devs(b, w.drop_last()).push(w.last())
    }
}

/// Whether some record of snapshot `s` equals `d`, by a linear scan.
pub fn snapshot_contains(s: &Vec<Dev>, d: &Dev) -> (r: bool)
    ensures
        r == snap_contains(snap_view(s@), d@),
{
    let n = s.len();
    let mut j: usize = 0;
    while j < n
        invariant
            n == s@.len(),
            j <= n,
            forall|k: int| 0 <= k < j ==> !dev_eq(snap_view(s@)[k], d@),
        decreases n - j,
    {
        proof {
            assert(snap_view(s@)[j as int] == s@[j as int]@);
        }
        if s[j] == *d {
            proof {
                assert(dev_eq(snap_view(s@)[j as int], d@));
            }
            return true;
        }
        j += 1;
    }
    false
}

/// Compares the `working` snapshot against the `baseline` and returns the
/// new records (those of `working` that `baseline` nowhere equals) and the
/// missing records (those of `baseline` that `working` nowhere equals),
/// each in its snapshot's order.
pub fn diff(baseline: &Vec<Dev>, working: &Vec<Dev>) -> (r: (Vec<Dev>, Vec<Dev>))
    ensures
        snap_view(r.0@) == new_devs(snap_view(baseline@), snap_view(working@)),
        snap_view(r.1@) == new_devs(snap_view(working@), snap_view(baseline@)),
{
    let ghost bv = snap_view(baseline@);
    let ghost wv = snap_view(working@);
    let mut new_list: Vec<Dev> = Vec::new();
    let wn = working.len();
    let mut i: usize = 0;
    while i < wn
        invariant
            wn == working@.len(),
            i <= wn,
            bv == snap_view(baseline@),
            wv == snap_view(working@),
            snap_view(new_list@) == new_devs(bv, wv.take(i as int)),
        decreases wn - i,
    {
        proof {
            assert(wv[i as int] == working@[i as int]@);
            assert(wv.take(i + 1).drop_last() =~= wv.take(i as int));
            assert(wv.take(i + 1).last() == wv[i as int]);
        }
        if !snapshot_contains(baseline, &working[i]) {
            let d = working[i].clone();
            new_list.push(d);
            proof {
                assert(snap_view(new_list@) =~= new_devs(bv, wv.take(i + 1)));
            }
        }
        i += 1;
    }
    proof {
        assert(wv.take(wn as int) =~= wv);
    }
    let mut missing_list: Vec<Dev> = Vec::new();
    let bn = baseline.len();
    let mut i: usize = 0;
    while i < bn
        invariant
            bn == baseline@.len(),
            i <= bn,
            bv == snap_view(baseline@),
            wv == snap_view(working@),
            snap_view(missing_list@) == new_devs(wv, bv.take(i as int)),
        decreases bn - i,
    {
        proof {
            assert(bv[i as int] == baseline@[i as int]@);
            assert(bv.take(i + 1).drop_last() =~= bv.take(i as int));
            assert(bv.take(i + 1).last() == bv[i as int]);
        }
        if !snapshot_contains(working, &baseline[i]) {
            let d = baseline[i].clone();
            missing_list.push(d);
            proof {
                assert(snap_view(missing_list@) =~= new_devs(wv, bv.take(i + 1)));
            }
        }
        i += 1;
    }
    proof {
        assert(bv.take(bn as int) =~= bv);
    }
    (new_list, missing_list)
}

/// When every record of `w` is already somewhere in `b`, nothing of `w` is
/// new.
pub proof fn lemma_new_devs_all_contained(b: Seq<DevV>, w: Seq<DevV>)
    requires
        forall|i: int| 0 <= i < w.len() ==> snap_contains(b, #[trigger] w[i]),
    ensures
        new_devs(b, w) == Seq::<DevV>::empty(),
    decreases w.len(),
{
    if w.len() > 0 {
        assert(w.last() == w[w.len() - 1]);
        assert forall|i: int| 0 <= i < w.drop_last().len() implies snap_contains(
            b,
            #[trigger] w.drop_last()[i],
        ) by {
            assert(w.drop_last()[i] == w[i]);
        }
        lemma_new_devs_all_contained(b, w.drop_last());
    }
}

/// When exactly the record at position `k` of `w` is absent from `b`, the
/// new list is that one record alone.
pub proof fn lemma_new_devs_single(b: Seq<DevV>, w: Seq<DevV>, k: int)
    requires
        0 <= k < w.len(),
        !snap_contains(b, w[k]),
        forall|j: int| 0 <= j < w.len() && j != k ==> snap_contains(b, #[trigger] w[j]),
    ensures
        new_devs(b, w) == seq![w[k]],
    decreases w.len(),
{
    assert(w.last() == w[w.len() - 1]);
    if k == w.len() - 1 {
        assert forall|i: int| 0 <= i < w.drop_last().len() implies snap_contains(
            b,
            #[trigger] w.drop_last()[i],
        ) by {
            assert(w.drop_last()[i] == w[i]);
        }
        lemma_new_devs_all_contained(b, w.drop_last());
        assert(new_devs(b, w) == Seq::<DevV>::empty().push(w[k]));
        assert(Seq::<DevV>::empty().push(w[k]) =~= seq![w[k]]);
    } else {
        assert(w.drop_last()[k] == w[k]);
        assert forall|j: int| 0 <= j < w.drop_last().len() && j != k implies snap_contains(
            b,
            #[trigger] w.drop_last()[j],
        ) by {
            assert(w.drop_last()[j] == w[j]);
        }
        lemma_new_devs_single(b, w.drop_last(), k);
        assert(seq![w.drop_last()[k]] == seq![w[k]]);
    }
}

/// Diffing any snapshot against itself yields no new and no missing
/// records.
pub proof fn lemma_diff_self(s: Seq<DevV>)
    ensures
        new_devs(s, s) == Seq::<DevV>::empty(),
{
    assert forall|i: int| 0 <= i < s.len() implies snap_contains(s, #[trigger] s[i]) by {
        assert(dev_eq(s[i], s[i]));
    }
    lemma_new_devs_all_contained(s, s);
}

/// Appending one record `d` that the snapshot `s` nowhere equals yields
/// exactly `d` as new and nothing as missing.
pub proof fn lemma_diff_appended(s: Seq<DevV>, d: DevV)
    requires
        !snap_contains(s, d),
    ensures
        new_devs(s, s.push(d)) == seq![d],
        new_devs(s.push(d), s) == Seq::<DevV>::empty(),
{
    assert(s.push(d).last() == d);
    assert(s.push(d).drop_last() =~= s);
    lemma_diff_self(s);
    assert(new_devs(s, s.push(d)) == Seq::<DevV>::empty().push(d));
    assert(Seq::<DevV>::empty().push(d) =~= seq![d]);
    assert forall|i: int| 0 <= i < s.len() implies snap_contains(s.push(d), #[trigger] s[i]) by {
        assert(s.push(d)[i] == s[i]);
        assert(dev_eq(s.push(d)[i], s[i]));
    }
    lemma_new_devs_all_contained(s.push(d), s);
}

/// Removing the record at position `k` — one that no other record of `s`
/// equals — yields exactly that record as missing and nothing as new.
pub proof fn lemma_diff_removed(s: Seq<DevV>, k: int)
    requires
        0 <= k < s.len(),
        forall|j: int| 0 <= j < s.len() && j != k ==> !dev_eq(#[trigger] s[j], s[k]),
    ensures
        new_devs(s, s.remove(k)) == Seq::<DevV>::empty(),
        new_devs(s.remove(k), s) == seq![s[k]],
{
    let t = s.remove(k);
    s.remove_ensures(k);
    assert forall|i: int| 0 <= i < t.len() implies snap_contains(s, #[trigger] t[i]) by {
        if i < k {
            assert(t[i] == s[i]);
            assert(dev_eq(s[i], t[i]));
        } else {
            assert(t[i] == s[i + 1]);
            assert(dev_eq(s[i + 1], t[i]));
        }
    }
    lemma_new_devs_all_contained(s, t);
    assert(!snap_contains(t, s[k])) by {
        if snap_contains(t, s[k]) {
            let j = choose|j: int| 0 <= j < t.len() && dev_eq(t[j], s[k]);
            if j < k {
                assert(t[j] == s[j]);
                assert(!dev_eq(s[j], s[k]));
            } else {
                assert(t[j] == s[j + 1]);
                assert(!dev_eq(s[j + 1], s[k]));
            }
            assert(false);
        }
    }
    assert forall|j: int| 0 <= j < s.len() && j != k implies snap_contains(t, #[trigger] s[j]) by {
        if j < k {
            assert(t[j] == s[j]);
            assert(dev_eq(t[j], s[j]));
        } else {
            assert(t[j - 1] == s[j]);
            assert(dev_eq(t[j - 1], s[j]));
        }
    }
    lemma_new_devs_single(t, s, k);
}

} // verus!
