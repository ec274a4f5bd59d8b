//! Grid positions with a total lexicographic order, so they can serve as
//! set and map keys independently of insertion order.

use vstd::prelude::*;

verus! {

/// A cell position `(x, y)` on a board, `x` counting columns from the left
/// and `y` counting rows from the top.
#[derive(PartialEq, Eq, Structural, Clone, Copy, Hash, Debug)]
pub struct OrdIx2 {
    pub x: usize,
    pub y: usize,
}

impl OrdIx2 {
    pub fn new(x: usize, y: usize) -> (r: OrdIx2)
        ensures
            r == (OrdIx2 { x, y }),
    {
        OrdIx2 { x, y }
    }

    /// Lexicographic order: first by `x`, then by `y`.
    pub open spec fn spec_le(self, other: OrdIx2) -> bool {
        self.x < other.x || (self.x == other.x && self.y <= other.y)
    }

    /// Strict lexicographic order.
    pub open spec fn spec_lt(self, other: OrdIx2) -> bool {
        self.spec_le(other) && self != other
    }

    pub fn le(&self, other: &OrdIx2) -> (r: bool)
        ensures
            r == self.spec_le(*other),
    {
        self.x < other.x || (self.x == other.x && self.y <= other.y)
    }

    pub fn lt(&self, other: &OrdIx2) -> (r: bool)
        ensures
            r == self.spec_lt(*other),
    {
        self.x < other.x || (self.x == other.x && self.y < other.y)
    }
}

impl PartialOrd for OrdIx2 {
    fn partial_cmp(&self, other: &Self) -> (r: Option<core::cmp::Ordering>) {
        if self.x < other.x {
            Some(core::cmp::Ordering::Less)
        } else if self.x > other.x {
            Some(core::cmp::Ordering::Greater)
        } else if self.y < other.y {
            Some(core::cmp::Ordering::Less)
        } else if self.y > other.y {
            Some(core::cmp::Ordering::Greater)
        } else {
            Some(core::cmp::Ordering::Equal)
        }
    }
}

impl vstd::std_specs::cmp::PartialOrdSpecImpl for OrdIx2 {
    open spec fn obeys_partial_cmp_spec() -> bool {
        true
    }

    open spec fn partial_cmp_spec(&self, other: &Self) -> Option<core::cmp::Ordering> {
        if self.spec_lt(*other) {
            Some(core::cmp::Ordering::Less)
        } else if other.spec_lt(*self) {
            Some(core::cmp::Ordering::Greater)
        } else {
            Some(core::cmp::Ordering::Equal)
        }
    }
}

/// Copies a position vector.
pub fn clone_pos_vec(v: &Vec<OrdIx2>) -> (r: Vec<OrdIx2>)
    ensures
        r@ == v@,
{
    let mut r: Vec<OrdIx2> = Vec::new();
    let mut k: usize = 0;
    while k < v.len()
        invariant
            k <= v.len(),
            r@ == v@.subrange(0, k as int),
        decreases v.len() - k,
    {
        r.push(v[k]);
        proof {
            assert(r@ =~= v@.subrange(0, k + 1));
        }
        k = k + 1;
    }
    proof {
        assert(v@.subrange(0, v@.len() as int) =~= v@);
    }
    r
}

/// Compares two position vectors element by element.
pub fn pos_vec_eq(a: &Vec<OrdIx2>, b: &Vec<OrdIx2>) -> (r: bool)
    ensures
        r == (a@ == b@),
{
    if a.len() != b.len() {
        return false;
    }
    let mut k: usize = 0;
    while k < a.len()
        invariant
            k <= a@.len(),
            a@.len() == b@.len(),
            forall|i: int| 0 <= i < k ==> a@[i] == b@[i],
        decreases a@.len() - k,
    {
        if !(a[k].x == b[k].x && a[k].y == b[k].y) {
            return false;
        }
        k = k + 1;
    }
    proof {
        assert(a@ =~= b@);
    }
    true
}

/// A strictly increasing position sequence: sorted with no duplicates.
pub open spec fn strictly_sorted_pos(s: Seq<OrdIx2>) -> bool {
    forall|i: int, j: int| 0 <= i < j < s.len() ==> (#[trigger] s[i]).spec_lt(#[trigger] s[j])
}

/// Two strictly sorted position sequences with the same members are equal:
/// a sorted, duplicate-free sequence is a canonical form of its set.
pub proof fn lemma_strictly_sorted_pos_unique(a: Seq<OrdIx2>, b: Seq<OrdIx2>)
    requires
        strictly_sorted_pos(a),
        strictly_sorted_pos(b),
        forall|p: OrdIx2| a.contains(p) <==> b.contains(p),
    ensures
        a =~= b,
    decreases a.len(),
{
    if a.len() == 0 {
        if b.len() > 0 {
            assert(b.contains(b[0]));
            assert(a.contains(b[0]));
        }
    } else {
        assert(a.contains(a[0]));
        assert(b.contains(b[0]));
        assert(b.contains(a[0]));
        assert(a.contains(b[0]));
        let ia = choose|i: int| 0 <= i < b.len() && b[i] == a[0];
        let ib = choose|i: int| 0 <= i < a.len() && a[i] == b[0];
        if ia > 0 {
            assert(b[0].spec_lt(b[ia]));
            assert(a[ib].spec_lt(a[0]) || ib == 0);
        }
        assert(a[0] == b[0]);
        let a1 = a.drop_first();
        let b1 = b.drop_first();
        assert forall|p: OrdIx2| a1.contains(p) implies b1.contains(p) by {
            let i = choose|i: int| 0 <= i < a1.len() && a1[i] == p;
            assert(a[i + 1] == p);
            assert(a.contains(p));
            assert(b.contains(p));
            let j = choose|j: int| 0 <= j < b.len() && b[j] == p;
            assert(a[0].spec_lt(p));
            if j == 0 {
                assert(p == b[0]);
            }
            assert(b1[j - 1] == p);
        }
        assert forall|p: OrdIx2| b1.contains(p) implies a1.contains(p) by {
            let i = choose|i: int| 0 <= i < b1.len() && b1[i] == p;
            assert(b[i + 1] == p);
            assert(b.contains(p));
            assert(a.contains(p));
            let j = choose|j: int| 0 <= j < a.len() && a[j] == p;
            assert(b[0].spec_lt(p));
            if j == 0 {
                assert(p == a[0]);
            }
            assert(a1[j - 1] == p);
        }
        assert(strictly_sorted_pos(a1)) by {
            assert forall|i: int, j: int| 0 <= i < j < a1.len() implies
                (#[trigger] a1[i]).spec_lt(#[trigger] a1[j]) by {
                assert(a[i + 1].spec_lt(a[j + 1]));
            }
        }
        assert(strictly_sorted_pos(b1)) by {
            assert forall|i: int, j: int| 0 <= i < j < b1.len() implies
                (#[trigger] b1[i]).spec_lt(#[trigger] b1[j]) by {
                assert(b[i + 1].spec_lt(b[j + 1]));
            }
        }
        lemma_strictly_sorted_pos_unique(a1, b1);
        assert(a =~= seq![a[0]] + a1);
        assert(b =~= seq![b[0]] + b1);
    }
}

/// The canonical (sorted, duplicate-free) sequence obtained by inserting
/// the positions of `s` in order into an initially empty sequence.
pub open spec fn canonical_insert_pos(s: Seq<OrdIx2>, p: OrdIx2) -> Seq<OrdIx2>
    decreases s.len(),
{
    if s.len() == 0 {
        seq![p]
    } else if p == s[0] {
        s
    } else if p.spec_lt(s[0]) {
        seq![p] + s
    } else {
        seq![s[0]] + canonical_insert_pos(s.drop_first(), p)
    }
}

pub open spec fn canonicalize_pos(s: Seq<OrdIx2>) -> Seq<OrdIx2>
    decreases s.len(),
{
    if s.len() == 0 {
        Seq::empty()
    } else {
        canonical_insert_pos(canonicalize_pos(s.drop_last()), s.last())
    }
}

pub proof fn lemma_canonical_insert_pos(s: Seq<OrdIx2>, p: OrdIx2)
    requires
        strictly_sorted_pos(s),
    ensures
        strictly_sorted_pos(canonical_insert_pos(s, p)),
        forall|q: OrdIx2|
            #![trigger canonical_insert_pos(s, p).contains(q)]
            canonical_insert_pos(s, p).contains(q) <==> (s.contains(q) || q == p),
    decreases s.len(),
{
    let r = canonical_insert_pos(s, p);
    if s.len() == 0 {
        assert(r[0] == p);
        assert(r.contains(p));
    } else if p == s[0] {
        assert(s.contains(s[0]));
    } else if p.spec_lt(s[0]) {
        assert forall|i: int, j: int| 0 <= i < j < r.len() implies
            (#[trigger] r[i]).spec_lt(#[trigger] r[j]) by {
            if i == 0 {
                assert(r[j] == s[j - 1]);
                if j > 1 {
                    assert(s[0].spec_lt(s[j - 1]));
                }
            } else {
                assert(r[i] == s[i - 1] && r[j] == s[j - 1]);
            }
        }
        assert forall|q: OrdIx2| r.contains(q) implies (s.contains(q) || q == p) by {
            let i = choose|i: int| 0 <= i < r.len() && r[i] == q;
            if i > 0 {
                assert(s[i - 1] == q);
            }
        }
        assert forall|q: OrdIx2| s.contains(q) implies r.contains(q) by {
            let i = choose|i: int| 0 <= i < s.len() && s[i] == q;
            assert(r[i + 1] == q);
        }
        assert(r[0] == p);
    } else {
        let s1 = s.drop_first();
        let r1 = canonical_insert_pos(s1, p);
        assert(strictly_sorted_pos(s1)) by {
            assert forall|i: int, j: int| 0 <= i < j < s1.len() implies
                (#[trigger] s1[i]).spec_lt(#[trigger] s1[j]) by {
                assert(s[i + 1].spec_lt(s[j + 1]));
            }
        }
        lemma_canonical_insert_pos(s1, p);
        // s[0] is strictly below p and below every member of r1.
        assert(s[0].spec_lt(p));
        assert forall|i: int, j: int| 0 <= i < j < r.len() implies
            (#[trigger] r[i]).spec_lt(#[trigger] r[j]) by {
            if i == 0 {
                assert(r[j] == r1[j - 1]);
                assert(r1.contains(r1[j - 1]));
                if s1.contains(r1[j - 1]) {
                    let k = choose|k: int| 0 <= k < s1.len() && s1[k] == r1[j - 1];
                    assert(s[0].spec_lt(s[k + 1]));
                }
            } else {
                assert(r[i] == r1[i - 1] && r[j] == r1[j - 1]);
            }
        }
        assert forall|q: OrdIx2| r.contains(q) implies (s.contains(q) || q == p) by {
            let i = choose|i: int| 0 <= i < r.len() && r[i] == q;
            if i == 0 {
                assert(s[0] == q);
            } else {
                assert(r1[i - 1] == q);
                assert(r1.contains(q));
                if s1.contains(q) {
                    let k = choose|k: int| 0 <= k < s1.len() && s1[k] == q;
                    assert(s[k + 1] == q);
                }
            }
        }
        assert forall|q: OrdIx2| s.contains(q) || q == p implies r.contains(q) by {
            if s.contains(q) {
                let i = choose|i: int| 0 <= i < s.len() && s[i] == q;
                if i == 0 {
                    assert(r[0] == q);
                } else {
                    assert(s1[i - 1] == q);
                    assert(s1.contains(q));
                    assert(r1.contains(q));
                    let k = choose|k: int| 0 <= k < r1.len() && r1[k] == q;
                    assert(r[k + 1] == q);
                }
            } else {
                assert(r1.contains(p));
                let k = choose|k: int| 0 <= k < r1.len() && r1[k] == p;
                assert(r[k + 1] == p);
            }
        }
    }
}

pub proof fn lemma_canonicalize_pos(s: Seq<OrdIx2>)
    ensures
        strictly_sorted_pos(canonicalize_pos(s)),
        forall|q: OrdIx2| #![trigger canonicalize_pos(s).contains(q)]
            canonicalize_pos(s).contains(q) <==> s.contains(q),
    decreases s.len(),
{
    if s.len() == 0 {
    } else {
        let s0 = s.drop_last();
        lemma_canonicalize_pos(s0);
        lemma_canonical_insert_pos(canonicalize_pos(s0), s.last());
        assert forall|q: OrdIx2| canonicalize_pos(s).contains(q) implies s.contains(q) by {
            if s0.contains(q) {
                let i = choose|i: int| 0 <= i < s0.len() && s0[i] == q;
                assert(s[i] == q);
            }
        }
        assert forall|q: OrdIx2| s.contains(q) implies canonicalize_pos(s).contains(q) by {
            let i = choose|i: int| 0 <= i < s.len() && s[i] == q;
            if i < s.len() - 1 {
                assert(s0[i] == q);
            }
        }
    }
}

/// Because canonical forms are unique, canonicalizing any two orderings of
/// the same positions yields the same sequence.
pub proof fn lemma_canonicalize_pos_order_independent(a: Seq<OrdIx2>, b: Seq<OrdIx2>)
    requires
        forall|p: OrdIx2| a.contains(p) <==> b.contains(p),
    ensures
        canonicalize_pos(a) =~= canonicalize_pos(b),
{
    lemma_canonicalize_pos(a);
    lemma_canonicalize_pos(b);
    assert forall|p: OrdIx2|
        canonicalize_pos(a).contains(p) <==> canonicalize_pos(b).contains(p) by {
        assert(a.contains(p) <==> b.contains(p));
    }
    lemma_strictly_sorted_pos_unique(canonicalize_pos(a), canonicalize_pos(b));
}

/// Inserts `p` into a strictly sorted position vector, keeping it sorted
/// and duplicate-free.
pub fn insert_sorted_pos(v: &mut Vec<OrdIx2>, p: OrdIx2)
    ensures
        final(v)@ == canonical_insert_pos(old(v)@, p),
{
    let ghost orig = v@;
    proof {
        assert(orig.subrange(0, 0) =~= Seq::<OrdIx2>::empty());
        assert(orig.subrange(0, orig.len() as int) =~= orig);
        assert(Seq::<OrdIx2>::empty() + canonical_insert_pos(orig, p)
            =~= canonical_insert_pos(orig, p));
        assert(canonical_insert_pos(orig, p) == orig.subrange(0, 0) + canonical_insert_pos(
            orig.subrange(0, orig.len() as int),
            p,
        ));
    }
    let mut i: usize = 0;
    while i < v.len()
        invariant
            i <= v.len(),
            orig == old(v)@,
            v@ == orig,
            forall|k: int| 0 <= k < i ==> (#[trigger] orig[k]).spec_lt(p),
            canonical_insert_pos(orig, p) == orig.subrange(0, i as int)
                + canonical_insert_pos(orig.subrange(i as int, orig.len() as int), p),
        decreases v.len() - i,
    {
        let ghost pre = orig.subrange(i as int, orig.len() as int);
        let c = v[i];
        assert(pre[0] == orig[i as int]);
        if c == p {
            proof {
                assert(canonical_insert_pos(pre, p) == pre);
                assert(orig.subrange(0, i as int) + pre =~= orig);
                assert(canonical_insert_pos(orig, p) == orig.subrange(0, i as int) + pre);
                assert(v@ == canonical_insert_pos(orig, p));
            }
            return;
        }
        let cp = p.lt(&c);
        if cp {
            proof {
                assert(canonical_insert_pos(pre, p) == seq![p] + pre);
            }
            v.insert(i, p);
            proof {
                assert(v@ =~= orig.subrange(0, i as int) + (seq![p] + pre));
            }
            return;
        }
        proof {
            assert(!p.spec_lt(orig[i as int]) && p != orig[i as int]);
            assert(orig[i as int].spec_lt(p));
            assert(canonical_insert_pos(pre, p)
                == seq![pre[0]] + canonical_insert_pos(pre.drop_first(), p));
            assert(pre.drop_first() =~= orig.subrange(i + 1, orig.len() as int));
            assert(orig.subrange(0, i as int) + (seq![pre[0]]
                + canonical_insert_pos(pre.drop_first(), p))
                =~= orig.subrange(0, i + 1)
                    + canonical_insert_pos(orig.subrange(i + 1, orig.len() as int), p));
        }
        i = i + 1;
    }
    proof {
        assert(orig.subrange(i as int, orig.len() as int) =~= Seq::<OrdIx2>::empty());
        assert(canonical_insert_pos(Seq::empty(), p) == seq![p]);
    }
    v.push(p);
    proof {
        assert(orig.subrange(0, i as int) =~= orig);
        assert(v@ =~= orig + seq![p]);
        assert(orig + seq![p] =~= orig.subrange(0, i as int) + seq![p]);
    }
}

/// Builds the canonical sorted, duplicate-free vector of the given positions.
pub fn canonical_pos_vec(input: Vec<OrdIx2>) -> (r: Vec<OrdIx2>)
    ensures
        r@ == canonicalize_pos(input@),
{
    let mut r: Vec<OrdIx2> = Vec::new();
    let mut i: usize = 0;
    while i < input.len()
        invariant
            i <= input.len(),
            r@ == canonicalize_pos(input@.subrange(0, i as int)),
        decreases input.len() - i,
    {
        proof {
            assert(input@.subrange(0, i + 1).drop_last() =~= input@.subrange(0, i as int));
        }
        insert_sorted_pos(&mut r, input[i]);
        i = i + 1;
    }
    proof {
        assert(input@.subrange(0, input@.len() as int) =~= input@);
    }
    r
}

} // verus!
