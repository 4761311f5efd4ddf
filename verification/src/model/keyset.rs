//! Sets of integers held as strictly increasing vectors.

use vstd::prelude::*;

verus! {

/// Each element is below the ones behind it.
pub open spec fn increasing(s: Seq<u128>) -> bool {
    forall|i: int, j: int| 0 <= i < j < s.len() ==> s[i] < s[j]
}

/// Two increasing sequences with the same elements are the same sequence.
pub proof fn lemma_increasing_unique(a: Seq<u128>, b: Seq<u128>)
    requires
        increasing(a),
        increasing(b),
        forall|x: u128| a.contains(x) <==> b.contains(x),
    ensures
        a == b,
    decreases a.len(),
{
    if a.len() == 0 {
        if b.len() > 0 {
            assert(b.contains(b[0]));
            assert(a.contains(b[0]));
        }
        assert(a =~= b);
    } else {
        let la = a.last();
        assert(a.contains(la));
        assert(b.contains(la));
        let lb = b.last();
        assert(b.contains(lb));
        assert(a.contains(lb));
        assert(la == lb);
        let a1 = a.drop_last();
        let b1 = b.drop_last();
        assert forall|x: u128| a1.contains(x) <==> b1.contains(x) by {
            if a1.contains(x) {
                let i = choose|i: int| 0 <= i < a1.len() && a1[i] == x;
                assert(a[i] == x);
                assert(a.contains(x));
                assert(x < la);
                let j = choose|j: int| 0 <= j < b.len() && b[j] == x;
                assert(j < b.len() - 1);
                assert(b1[j] == x);
            }
            if b1.contains(x) {
                let i = choose|i: int| 0 <= i < b1.len() && b1[i] == x;
                assert(b[i] == x);
                assert(b.contains(x));
                assert(x < lb);
                let j = choose|j: int| 0 <= j < a.len() && a[j] == x;
                assert(j < a.len() - 1);
                assert(a1[j] == x);
            }
        }
        lemma_increasing_unique(a1, b1);
        assert(a =~= a1.push(la));
        assert(b =~= b1.push(lb));
    }
}

/// In an increasing sequence an element stands at one index only.
pub proof fn lemma_increasing_index(s: Seq<u128>, i: int, j: int)
    requires
        increasing(s),
        0 <= i < s.len(),
        0 <= j < s.len(),
        s[i] == s[j],
    ensures
        i == j,
{
    if i < j {
        assert(s[i] < s[j]);
    } else if j < i {
        assert(s[j] < s[i]);
    }
}

/// An increasing sequence whose elements all lie in another is no longer
/// than the other.
pub proof fn lemma_subset_len(a: Seq<u128>, b: Seq<u128>)
    requires
        increasing(a),
        increasing(b),
        forall|x: u128| a.contains(x) ==> b.contains(x),
    ensures
        a.len() <= b.len(),
    decreases a.len(),
{
    if a.len() > 0 {
        let la = a.last();
        assert(a.contains(la));
        let j = choose|j: int| 0 <= j < b.len() && b[j] == la;
        let a1 = a.drop_last();
        let b1 = b.take(j);
        assert forall|x: u128| a1.contains(x) implies b1.contains(x) by {
            let i = choose|i: int| 0 <= i < a1.len() && a1[i] == x;
            assert(a[i] == x);
            assert(a.contains(x));
            assert(x < la);
            let m = choose|m: int| 0 <= m < b.len() && b[m] == x;
            if m >= j {
                if m > j {
                    assert(b[j] < b[m]);
                }
            }
            assert(b1[m] == x);
        }
        lemma_subset_len(a1, b1);
    }
}

/// An increasing sequence whose elements all lie in another, which holds
/// one more, is shorter than the other.
pub proof fn lemma_proper_subset_len(a: Seq<u128>, b: Seq<u128>, extra: u128)
    requires
        increasing(a),
        increasing(b),
        forall|x: u128| a.contains(x) ==> b.contains(x),
        b.contains(extra),
        !a.contains(extra),
    ensures
        a.len() < b.len(),
{
    let j = choose|j: int| 0 <= j < b.len() && b[j] == extra;
    let rest = b.remove(j);
    assert forall|p: int, q: int| 0 <= p < q < rest.len() implies rest[p] < rest[q] by {
        let p1 = if p < j { p } else { p + 1 };
        let q1 = if q < j { q } else { q + 1 };
        assert(rest[p] == b[p1] && rest[q] == b[q1]);
    }
    assert forall|x: u128| a.contains(x) implies rest.contains(x) by {
        let m = choose|m: int| 0 <= m < b.len() && b[m] == x;
        assert(m != j);
        if m < j {
            assert(rest[m] == x);
        } else {
            assert(rest[m - 1] == x);
        }
    }
    lemma_subset_len(a, rest);
}

/// A set of integers.
#[derive(Debug)]
pub struct KeySet {
    keys: Vec<u128>,
}

impl View for KeySet {
    type V = Seq<u128>;

    /// The elements, smallest first.
    closed spec fn view(&self) -> Seq<u128> {
        self.keys@
    }
}

impl KeySet {
    /// The elements stand in increasing order.
    pub open spec fn wf(&self) -> bool {
        increasing(self@)
    }

    /// The empty set.
    pub fn new() -> (set: KeySet)
        ensures
            set@ == Seq::<u128>::empty(),
            set.wf(),
    {
        KeySet { keys: Vec::new() }
    }

    /// The set of the elements of a vector, if they stand in increasing
    /// order.
    pub fn from_vec(keys: Vec<u128>) -> (r: Option<KeySet>)
        ensures
            increasing(keys@) ==> r is Some && r.unwrap()@ == keys@ && r.unwrap().wf(),
            !increasing(keys@) ==> r is None,
    {
        let mut i: usize = 1;
        while i < keys.len()
            invariant
                1 <= i,
                forall|a: int, b: int| 0 <= a < b < i && b < keys@.len() ==> keys@[a] < keys@[b],
            decreases keys@.len() - i,
        {
            if keys[i - 1] >= keys[i] {
                return None;
            }
            proof {
                assert forall|a: int, b: int| 0 <= a < b < i + 1 && b < keys@.len() implies keys@[a]
                    < keys@[b] by {
                    if b == i && a < i - 1 {
                        assert(keys@[a] < keys@[i - 1]);
                    }
                }
            }
            i = i + 1;
        }
        Some(KeySet { keys })
    }

    /// Number of elements.
    pub fn len(&self) -> (n: usize)
        ensures
            n == self@.len(),
    {
        self.keys.len()
    }

    /// The element at index `i`, counted from the smallest.
    pub fn get(&self, i: usize) -> (key: u128)
        requires
            i < self@.len(),
        ensures
            key == self@[i as int],
    {
        self.keys[i]
    }

    /// The index of the first element that is not below `key`, and whether
    /// that element is `key`.
    pub fn find(&self, key: u128) -> (r: (usize, bool))
        requires
            self.wf(),
        ensures
            r.0 <= self@.len(),
            forall|i: int| 0 <= i < r.0 ==> self@[i] < key,
            forall|i: int| r.0 <= i < self@.len() ==> key <= self@[i],
            r.1 == (r.0 < self@.len() && self@[r.0 as int] == key),
            r.1 == self@.contains(key),
    {
        let mut lo: usize = 0;
        let mut hi: usize = self.keys.len();
        while lo < hi
            invariant
                lo <= hi <= self@.len(),
                self.wf(),
                forall|i: int| 0 <= i < lo ==> self@[i] < key,
                forall|i: int| hi <= i < self@.len() ==> key <= self@[i],
            decreases hi - lo,
        {
            let mid = lo + (hi - lo) / 2;
            if self.keys[mid] < key {
                lo = mid + 1;
            } else {
                hi = mid;
            }
        }
        let found = lo < self.keys.len() && self.keys[lo] == key;
        proof {
            if self@.contains(key) {
                let i = choose|i: int| 0 <= i < self@.len() && self@[i] == key;
                if i > lo {
                    assert(self@[lo as int] < self@[i]);
                }
            }
        }
        (lo, found)
    }

    /// Whether `key` is an element.
    pub fn contains(&self, key: u128) -> (b: bool)
        requires
            self.wf(),
        ensures
            b == self@.contains(key),
    {
        self.find(key).1
    }

    /// Adds `key`. Returns the index at which it stands afterwards, and
    /// whether it was new.
    pub fn insert(&mut self, key: u128) -> (r: (usize, bool))
        requires
            old(self).wf(),
        ensures
            final(self).wf(),
            r.0 <= old(self)@.len(),
            r.0 < final(self)@.len(),
            final(self)@[r.0 as int] == key,
            r.1 == !old(self)@.contains(key),
            r.1 ==> final(self)@ == old(self)@.insert(r.0 as int, key),
            !r.1 ==> final(self)@ == old(self)@,
            forall|x: u128| #[trigger]
                final(self)@.contains(x) <==> (old(self)@.contains(x) || x == key),
    {
        let (at, found) = self.find(key);
        if !found {
            let ghost before = self@;
            self.keys.insert(at, key);
            proof {
                let after = self@;
                assert(after == before.insert(at as int, key));
                assert forall|i: int, j: int| 0 <= i < j < after.len() implies after[i]
                    < after[j] by {
                    if j < at {
                        assert(after[i] == before[i] && after[j] == before[j]);
                    } else if j == at {
                        assert(after[i] == before[i]);
                    } else if i < at {
                        assert(after[i] == before[i] && after[j] == before[j - 1]);
                    } else if i == at {
                        assert(after[j] == before[j - 1]);
                        assert(key <= before[j - 1]);
                        assert(key != before[j - 1]) by {
                            if j - 1 > at {
                                assert(before[at as int] < before[j - 1]);
                            }
                        }
                    } else {
                        assert(after[i] == before[i - 1] && after[j] == before[j - 1]);
                    }
                }
                assert forall|x: u128| after.contains(x) <==> (before.contains(x) || x
                    == key) by {
                    if after.contains(x) {
                        let i = choose|i: int| 0 <= i < after.len() && after[i] == x;
                        if i < at {
                            assert(before[i] == x);
                        } else if i > at {
                            assert(before[i - 1] == x);
                        }
                    }
                    if before.contains(x) {
                        let i = choose|i: int| 0 <= i < before.len() && before[i] == x;
                        if i < at {
                            assert(after[i] == x);
                        } else {
                            assert(after[i + 1] == x);
                        }
                    }
                    if x == key {
                        assert(after[at as int] == x);
                    }
                }
            }
        }
        (at, !found)
    }

    /// Adds every element of `other`.
    pub fn union_with(&mut self, other: &KeySet)
        requires
            old(self).wf(),
            other.wf(),
        ensures
            final(self).wf(),
            forall|x: u128| #[trigger]
                final(self)@.contains(x) <==> (old(self)@.contains(x) || other@.contains(x)),
    {
        let mut i: usize = 0;
        while i < other.len()
            invariant
                i <= other@.len(),
                self.wf(),
                forall|x: u128| #[trigger]
                    self@.contains(x) <==> (old(self)@.contains(x) || other@.take(i as int).contains(
                        x,
                    )),
            decreases other@.len() - i,
        {
            let key = other.get(i);
            self.insert(key);
            proof {
                let head = other@.take(i as int);
                let next = other@.take(i + 1);
                assert(next =~= head.push(key));
                assert forall|x: u128| next.contains(x) <==> (head.contains(x) || x == key) by {
                    if next.contains(x) {
                        let j = choose|j: int| 0 <= j < next.len() && next[j] == x;
                        if j < i {
                            assert(head[j] == x);
                        }
                    }
                    if head.contains(x) {
                        let j = choose|j: int| 0 <= j < head.len() && head[j] == x;
                        assert(next[j] == x);
                    }
                    if x == key {
                        assert(next[i as int] == x);
                    }
                }
            }
            i = i + 1;
        }
        proof {
            assert(other@.take(other@.len() as int) =~= other@);
        }
    }

    /// Keeps the `n` largest elements and drops the others.
    pub fn keep_last(&mut self, n: usize)
        requires
            old(self).wf(),
        ensures
            final(self).wf(),
            final(self)@ == largest(old(self)@, n as nat),
    {
        let len = self.keys.len();
        if len > n {
            let tail = self.keys.split_off(len - n);
            self.keys = tail;
            proof {
                assert(self@ =~= old(self)@.skip(len - n));
            }
        }
    }

    /// The `n` largest elements, the largest first.
    pub fn top(&self, n: usize) -> (top: Vec<u128>)
        requires
            self.wf(),
        ensures
            top@ == largest(self@, n as nat).reverse(),
    {
        let len = self.keys.len();
        let count = if len > n {
            n
        } else {
            len
        };
        let ghost kept = largest(self@, n as nat);
        proof {
            assert(kept =~= self@.skip(len - count));
        }
        let mut top: Vec<u128> = Vec::new();
        let mut i: usize = 0;
        while i < count
            invariant
                i <= count,
                count <= len,
                len == self@.len(),
                kept == self@.skip(len - count),
                top@ == kept.reverse().take(i as int),
            decreases count - i,
        {
            top.push(self.keys[len - 1 - i]);
            proof {
                assert(kept.reverse()[i as int] == self@[len - 1 - i]);
                assert(top@ =~= kept.reverse().take(i + 1));
            }
            i = i + 1;
        }
        proof {
            assert(kept.reverse().take(count as int) =~= kept.reverse());
        }
        top
    }

    /// A copy of the set.
    pub fn duplicate(&self) -> (set: KeySet)
        ensures
            set@ == self@,
    {
        let mut keys: Vec<u128> = Vec::new();
        let mut i: usize = 0;
        while i < self.keys.len()
            invariant
                i <= self@.len(),
                keys@ == self@.take(i as int),
            decreases self@.len() - i,
        {
            keys.push(self.keys[i]);
            proof {
                assert(keys@ =~= self@.take(i + 1));
            }
            i = i + 1;
        }
        proof {
            assert(self@.take(self@.len() as int) =~= self@);
        }
        KeySet { keys }
    }
}

/// The `n` largest elements of an increasing sequence: its last `n`, or all
/// of it.
pub open spec fn largest(s: Seq<u128>, n: nat) -> Seq<u128> {
    if s.len() > n {
        s.skip(s.len() - n)
    } else {
        s
    }
}

/// The largest elements of an increasing sequence are increasing, at most
/// `n`, and come from the sequence; what was dropped lies below all of them.
pub proof fn lemma_largest(s: Seq<u128>, n: nat)
    requires
        increasing(s),
    ensures
        increasing(largest(s, n)),
        largest(s, n).len() <= n,
        largest(s, n).len() <= s.len(),
        s.len() <= n ==> largest(s, n) == s,
        forall|x: u128| largest(s, n).contains(x) ==> s.contains(x),
        forall|x: u128, y: u128|
            s.contains(x) && !largest(s, n).contains(x) && largest(s, n).contains(y) ==> x < y,
{
    let t = largest(s, n);
    if s.len() > n {
        let d = s.len() - n;
        assert forall|x: u128| t.contains(x) implies s.contains(x) by {
            let i = choose|i: int| 0 <= i < t.len() && t[i] == x;
            assert(s[i + d] == x);
        }
        assert forall|x: u128, y: u128|
            s.contains(x) && !t.contains(x) && t.contains(y) implies x < y by {
            let i = choose|i: int| 0 <= i < s.len() && s[i] == x;
            let j = choose|j: int| 0 <= j < t.len() && t[j] == y;
            if i >= d {
                assert(t[i - d] == x);
            }
            assert(s[j + d] == y);
        }
    }
}

} // verus!
