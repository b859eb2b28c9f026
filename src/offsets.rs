//! Sets of offsets `0..=n` into a line, held as one flag per offset.
use vstd::prelude::*;

verus! {

/// The offsets whose flag is set.
pub open spec fn bits_set(b: Seq<bool>) -> Set<int> {
    Set::new(|i: int| 0 <= i < b.len() && b[i])
}

/// The offsets listed in `v`.
pub open spec fn listed(v: Seq<usize>) -> Set<int> {
    Set::new(|p: int| exists|i: int| 0 <= i < v.len() && v[i] as int == p)
}

pub open spec fn strictly_increasing(v: Seq<usize>) -> bool {
    forall|i: int, j: int| 0 <= i < j < v.len() ==> v[i] < v[j]
}

pub fn no_bits(len: usize) -> (r: Vec<bool>)
    ensures
        r@.len() == len,
        bits_set(r@) == Set::<int>::empty(),
{
    let mut r: Vec<bool> = Vec::new();
    let mut i: usize = 0;
    while i < len
        invariant
            i <= len,
            r@.len() == i,
            forall|j: int| 0 <= j < i ==> !r@[j],
        decreases len - i,
    {
        r.push(false);
        i += 1;
    }
    assert(bits_set(r@) =~= Set::<int>::empty());
    r
}

pub fn one_bit(len: usize, p: usize) -> (r: Vec<bool>)
    requires
        p < len,
    ensures
        r@.len() == len,
        bits_set(r@) == set![p as int],
{
    let mut r = no_bits(len);
    r.set(p, true);
    assert(bits_set(r@) =~= set![p as int]);
    r
}

/// Adds the offsets of `more` to `acc`.
pub fn add_bits(acc: &mut Vec<bool>, more: &Vec<bool>)
    requires
        old(acc)@.len() == more@.len(),
    ensures
        final(acc)@.len() == old(acc)@.len(),
        bits_set(final(acc)@) == bits_set(old(acc)@).union(bits_set(more@)),
{
    let mut merged: Vec<bool> = Vec::new();
    let mut i: usize = 0;
    while i < more.len()
        invariant
            i <= more@.len(),
            acc@.len() == more@.len(),
            merged@.len() == i,
            forall|j: int| 0 <= j < i ==> merged@[j] == (acc@[j] || more@[j]),
        decreases more@.len() - i,
    {
        merged.push(acc[i] || more[i]);
        i += 1;
    }
    assert(bits_set(merged@) =~= bits_set(acc@).union(bits_set(more@)));
    *acc = merged;
}

/// Whether any offset is set.
pub fn any_bit(b: &Vec<bool>) -> (r: bool)
    ensures
        r == !bits_set(b@).is_empty(),
{
    let mut i: usize = 0;
    while i < b.len()
        invariant
            i <= b@.len(),
            forall|j: int| 0 <= j < i ==> !b@[j],
        decreases b@.len() - i,
    {
        if b[i] {
            assert(bits_set(b@).contains(i as int));
            return true;
        }
        i += 1;
    }
    assert(bits_set(b@) =~= Set::<int>::empty());
    false
}

/// The largest offset that is set.
pub fn last_bit(b: &Vec<bool>) -> (e: usize)
    requires
        !bits_set(b@).is_empty(),
    ensures
        e < b@.len(),
        bits_set(b@).contains(e as int),
        forall|q: int| bits_set(b@).contains(q) ==> q <= e,
{
    let ghost w = choose|w: int| bits_set(b@).contains(w);
    assert(bits_set(b@).contains(w));
    let mut i: usize = b.len();
    while i > 0
        invariant
            i <= b@.len(),
            forall|j: int| i <= j < b@.len() ==> !b@[j],
        decreases i,
    {
        if b[i - 1] {
            return i - 1;
        }
        i -= 1;
    }
    assert(false);
    0
}

/// The set offsets in increasing order.
pub fn list_bits(b: &Vec<bool>) -> (r: Vec<usize>)
    ensures
        listed(r@) == bits_set(b@),
        strictly_increasing(r@),
{
    let mut r: Vec<usize> = Vec::new();
    let mut i: usize = 0;
    while i < b.len()
        invariant
            i <= b@.len(),
            strictly_increasing(r@),
            forall|k: int| 0 <= k < r@.len() ==> r@[k] < i,
            forall|p: int| listed(r@).contains(p) <==> 0 <= p < i && b@[p],
        decreases b@.len() - i,
    {
        if b[i] {
            let ghost r0 = r@;
            r.push(i);
            assert forall|p: int| listed(r@).contains(p) <==> 0 <= p < i + 1 && b@[p] by {
                if 0 <= p < i + 1 && b@[p] {
                    if p == i {
                        assert(r@[r0.len() as int] as int == p);
                    } else {
                        assert(listed(r0).contains(p));
                        let k = choose|k: int| 0 <= k < r0.len() && r0[k] as int == p;
                        assert(r@[k] as int == p);
                    }
                }
                if listed(r@).contains(p) {
                    let k = choose|k: int| 0 <= k < r@.len() && r@[k] as int == p;
                    if k < r0.len() {
                        assert(listed(r0).contains(p));
                    }
                }
            }
        } else {
            assert forall|p: int| listed(r@).contains(p) <==> 0 <= p < i + 1 && b@[p] by {
                if listed(r@).contains(p) {
                    let k = choose|k: int| 0 <= k < r@.len() && r@[k] as int == p;
                }
            }
        }
        i += 1;
    }
    assert(listed(r@) =~= bits_set(b@));
    r
}

} // verus!
