//! The distinct colours of an image, in ascending order, gathered in an
//! ordered set.

use vstd::prelude::*;
use std::collections::BTreeSet;
use vstd::std_specs::iter::IteratorSpec;
use crate::sixel::{lemma_registers_cover_image, used_color_set};

verus! {

broadcast use vstd::std_specs::btree::group_btree_axioms, vstd::laws_cmp::group_laws_cmp;

/// An ascending sequence of colours.
spec fn ascending(s: Seq<u8>) -> bool {
    forall|i: int, j: int| 0 <= i < j < s.len() ==> s[i] < s[j]
}

/// What an ordered set's iterator yields is ascending.
proof fn lemma_increasing_is_ascending(r: Seq<&u8>)
    requires
        vstd::std_specs::btree::increasing_seq(r),
    ensures
        ascending(r.unref()),
{
    let s = r.unref();
    assert forall|i: int, j: int| 0 <= i < j < s.len() implies s[i] < s[j] by {
        assert(vstd::std_specs::cmp::OrdSpec::cmp_spec(&r[i], &r[j]) is Less);
    }
}

/// Two ascending sequences with the same elements are equal.
proof fn lemma_ascending_unique(a: Seq<u8>, b: Seq<u8>)
    requires
        ascending(a),
        ascending(b),
        forall|c: u8| a.contains(c) <==> b.contains(c),
    ensures
        a == b,
    decreases a.len(),
{
    if a.len() == 0 {
        if b.len() > 0 {
            assert(b.contains(b[0]));
        }
        assert(a =~= b);
    } else {
        assert(a.contains(a[0]));
        let k = choose|k: int| 0 <= k < b.len() && b[k] == a[0];
        assert(b.contains(b[0]));
        let m = choose|m: int| 0 <= m < a.len() && a[m] == b[0];
        if k > 0 {
            assert(b[0] < b[k]);
        }
        if m > 0 {
            assert(a[0] < a[m]);
        }
        assert(a[0] == b[0]);
        let ar = a.drop_first();
        let br = b.drop_first();
        assert forall|c: u8| ar.contains(c) <==> br.contains(c) by {
            if ar.contains(c) {
                let i = choose|i: int| 0 <= i < ar.len() && ar[i] == c;
                assert(a[i + 1] == c && a[0] < a[i + 1]);
                assert(a.contains(c));
                let j = choose|j: int| 0 <= j < b.len() && b[j] == c;
                if j == 0 {
                    assert(false);
                }
                assert(br[j - 1] == c);
            }
            if br.contains(c) {
                let i = choose|i: int| 0 <= i < br.len() && br[i] == c;
                assert(b[i + 1] == c && b[0] < b[i + 1]);
                assert(b.contains(c));
                let j = choose|j: int| 0 <= j < a.len() && a[j] == c;
                if j == 0 {
                    assert(false);
                }
                assert(ar[j - 1] == c);
            }
        }
        lemma_ascending_unique(ar, br);
        assert(a =~= seq![a[0]] + ar);
        assert(b =~= seq![b[0]] + br);
    }
}

/// The colours of the image `pixels`, ascending and without repeats.
pub(crate) fn used_colors(pixels: &[u8]) -> (used: Vec<u8>)
    ensures
        used@ == used_color_set(pixels@),
{
    let mut set: BTreeSet<u8> = BTreeSet::new();
    let n = pixels.len();
    for i in 0..n
        invariant
            n == pixels@.len(),
            forall|c: u8| set@.contains(c) <==> pixels@.take(i as int).contains(c),
    {
        let v = pixels[i];
        set.insert(v);
        proof {
            let before = pixels@.take(i as int);
            let after = pixels@.take(i + 1);
            assert(after =~= before.push(v));
            assert forall|c: u8| set@.contains(c) <==> after.contains(c) by {
                if after.contains(c) && c != v {
                    let j = choose|j: int| 0 <= j < after.len() && after[j] == c;
                    assert(before[j] == c);
                }
                if before.contains(c) {
                    let j = choose|j: int| 0 <= j < before.len() && before[j] == c;
                    assert(after[j] == c);
                }
                if c == v {
                    assert(after[i as int] == v);
                }
            }
        }
    }
    assert(pixels@.take(n as int) =~= pixels@);
    let ghost refs = vstd::std_specs::btree::spec_btree_keys_iter(&set).remaining();
    let ghost keys = refs.unref();
    let mut used: Vec<u8> = Vec::new();
    for c in it: set.iter()
        invariant
            it.seq().unref() == keys,
            used@ == keys.take(it.index() as int),
    {
        used.push(*c);
        proof {
            assert(keys.take(it.index() + 1) =~= keys.take(it.index() as int).push(*c));
        }
    }
    proof {
        assert(used@ =~= keys);
        lemma_increasing_is_ascending(refs);
        lemma_registers_cover_image(pixels@);
        assert forall|c: u8| used@.contains(c) <==> used_color_set(pixels@).contains(c) by {
            assert(keys.to_set().contains(c) <==> keys.contains(c));
        }
        lemma_ascending_unique(used@, used_color_set(pixels@));
    }
    used
}

} // verus!
