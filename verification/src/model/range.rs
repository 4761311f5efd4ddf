//! Key ranges of a scan: from a first key up to, and without, a bound.

use vstd::prelude::*;
use crate::model::key::{
    lemma_master_prefix_fields, lemma_master_prefix_injective, lemma_personal_prefix_fields,
    lemma_personal_prefix_injective, master_key_bytes, master_prefix_bytes, personal_key_bytes,
    personal_prefix_bytes, MasterKeyPrefix, MasterPrefixView, PersonalKeyPrefix,
    PersonalPrefixView,
};
use crate::model::user::is_handle;
use crate::model::year::AnnoLichess;

verus! {

/// `k` shows that `a` stands before `b`: they agree before index `k`, and
/// there `a` ends or has the smaller byte.
pub open spec fn lex_witness(a: Seq<u8>, b: Seq<u8>, k: int) -> bool {
    &&& 0 <= k <= a.len()
    &&& k < b.len()
    &&& forall|i: int| 0 <= i < k ==> a[i] == b[i]
    &&& k < a.len() ==> a[k] < b[k]
}

/// `a` stands before `b` in the order of the store: byte by byte, a proper
/// prefix first.
pub open spec fn lex_lt(a: Seq<u8>, b: Seq<u8>) -> bool {
    exists|k: int| lex_witness(a, b, k)
}

/// Whether `a` stands before `b` in the order of the store.
pub fn lex_less(a: &[u8], b: &[u8]) -> (r: bool)
    ensures
        r == lex_lt(a@, b@),
{
    let mut i: usize = 0;
    while i < a.len() && i < b.len()
        invariant
            i <= a@.len(),
            i <= b@.len(),
            forall|j: int| 0 <= j < i ==> a@[j] == b@[j],
        decreases a@.len() - i,
    {
        if a[i] < b[i] {
            proof {
                assert(lex_witness(a@, b@, i as int));
            }
            return true;
        }
        if a[i] > b[i] {
            proof {
                assert forall|k: int| !lex_witness(a@, b@, k) by {
                    if lex_witness(a@, b@, k) {
                        if k > i {
                            assert(a@[i as int] == b@[i as int]);
                        }
                    }
                }
            }
            return false;
        }
        i = i + 1;
    }
    proof {
        if a@.len() < b@.len() {
            assert(lex_witness(a@, b@, a@.len() as int));
        } else {
            assert forall|k: int| !lex_witness(a@, b@, k) by {}
        }
    }
    a.len() < b.len()
}

/// The keys from `from` on that stand before `upper`.
pub struct ScanRange {
    pub from: Vec<u8>,
    pub upper: Vec<u8>,
}

/// Whether a key lies in the range from `from` up to, and without, `upper`.
pub open spec fn in_range(from: Seq<u8>, upper: Seq<u8>, key: Seq<u8>) -> bool {
    !lex_lt(key, from) && lex_lt(key, upper)
}

impl ScanRange {
    /// Whether a key lies in the range.
    pub fn contains(&self, key: &[u8]) -> (b: bool)
        ensures
            b == in_range(self.from@, self.upper@, key@),
    {
        !lex_less(key, self.from.as_slice()) && lex_less(key, self.upper.as_slice())
    }
}

/// The first index at which two sequences of one length differ.
proof fn lemma_first_difference(a: Seq<u8>, b: Seq<u8>, start: int) -> (d: int)
    requires
        a.len() == b.len(),
        a != b,
        0 <= start <= a.len(),
        forall|i: int| 0 <= i < start ==> a[i] == b[i],
    ensures
        0 <= d < a.len(),
        a[d] != b[d],
        forall|i: int| 0 <= i < d ==> a[i] == b[i],
    decreases a.len() - start,
{
    if start == a.len() {
        assert(a =~= b);
        0
    } else if a[start] != b[start] {
        start
    } else {
        lemma_first_difference(a, b, start + 1)
    }
}

/// Among the keys made of a prefix of one length and a year, the range from
/// `prefix, since` up to `prefix, upper` holds the keys of that prefix whose
/// year is at least `since` and below `upper`, and no others.
pub proof fn lemma_range_of_prefix(prefix: Seq<u8>, since: u8, upper: u8, other: Seq<u8>, year: u8)
    requires
        prefix.len() == other.len(),
    ensures
        in_range(prefix.push(since), prefix.push(upper), other.push(year)) <==> (other == prefix
            && since <= year < upper),
{
    let n = prefix.len() as int;
    let key = other.push(year);
    let from = prefix.push(since);
    let up = prefix.push(upper);
    if other == prefix && since <= year < upper {
        assert(lex_witness(key, up, n));
        assert forall|k: int| !lex_witness(key, from, k) by {}
    }
    if in_range(from, up, key) {
        let k = choose|k: int| lex_witness(key, up, k);
        if other != prefix {
            let d = lemma_first_difference(other, prefix, 0);
            assert(key[d] == other[d] && from[d] == prefix[d] && up[d] == prefix[d]);
            if other[d] < prefix[d] {
                assert forall|i: int| 0 <= i < d implies key[i] == from[i] by {
                    assert(key[i] == other[i] && from[i] == prefix[i]);
                }
                assert(lex_witness(key, from, d));
            } else {
                if k < d {
                    assert(key[k] == other[k] && up[k] == prefix[k]);
                }
            }
        } else {
            if k < n {
                assert(key[k] == other[k] && up[k] == prefix[k]);
            }
            assert(k == n);
            if year < since {
                assert(lex_witness(key, from, n));
            }
        }
    }
}

/// The keys of one prefix stand in the order of their years.
pub proof fn lemma_years_ascending(prefix: Seq<u8>, first: u8, second: u8)
    ensures
        lex_lt(prefix.push(first), prefix.push(second)) <==> first < second,
{
    let a = prefix.push(first);
    let b = prefix.push(second);
    let n = prefix.len() as int;
    if first < second {
        assert(lex_witness(a, b, n));
    }
    if lex_lt(a, b) {
        let k = choose|k: int| lex_witness(a, b, k);
        if k < n {
            assert(a[k] == prefix[k] && b[k] == prefix[k]);
        }
    }
}

/// Among the keys made of a prefix of one length and a year, the range from
/// `prefix, since` up to the first byte string behind `prefix, 255` holds the
/// keys of that prefix whose year is at least `since`, and no others.
pub proof fn lemma_open_range_of_prefix(prefix: Seq<u8>, since: u8, other: Seq<u8>, year: u8)
    requires
        prefix.len() == other.len(),
    ensures
        in_range(prefix.push(since), prefix.push(255).push(0), other.push(year)) <==> (other
            == prefix && since <= year),
{
    let n = prefix.len() as int;
    let key = other.push(year);
    let from = prefix.push(since);
    let up = prefix.push(255).push(0);
    if other == prefix && since <= year {
        if year < 255 {
            assert(lex_witness(key, up, n));
        } else {
            assert(lex_witness(key, up, n + 1));
        }
        assert forall|k: int| !lex_witness(key, from, k) by {}
    }
    if in_range(from, up, key) {
        let k = choose|k: int| lex_witness(key, up, k);
        if other != prefix {
            let d = lemma_first_difference(other, prefix, 0);
            assert(key[d] == other[d] && from[d] == prefix[d] && up[d] == prefix[d]);
            if other[d] < prefix[d] {
                assert forall|i: int| 0 <= i < d implies key[i] == from[i] by {
                    assert(key[i] == other[i] && from[i] == prefix[i]);
                }
                assert(lex_witness(key, from, d));
            } else {
                if k < d {
                    assert(key[k] == other[k] && up[k] == prefix[k]);
                }
            }
        } else {
            if year < since {
                assert(lex_witness(key, from, n));
            }
        }
    }
}

/// The bound that closes a scan of a prefix up to and with the year
/// `until`: the key of the following year, or, behind the last year that a
/// byte can hold, the first byte string behind its key.
pub open spec fn upper_bound(prefix: Seq<u8>, until: nat) -> Seq<u8> {
    if until < 255 {
        prefix.push((until + 1) as u8)
    } else {
        prefix.push(255).push(0)
    }
}

impl PersonalKeyPrefix {
    /// The range of the keys of this prefix with a year from `since` to
    /// `until`. With the sentinel as `until` the range is open above.
    pub fn scan(&self, since: AnnoLichess, until: AnnoLichess) -> (range: ScanRange)
        requires
            self.wf(),
        ensures
            range.from@ == personal_key_bytes(self@, since@),
            range.upper@ == upper_bound(personal_prefix_bytes(self@), until@),
    {
        let from = self.with_year(since).into_bytes();
        let upper = if until.is_max() {
            let mut upper = self.with_year(until).into_bytes();
            upper.push(0);
            proof {
                assert(upper@ =~= personal_prefix_bytes(self@).push(255).push(0));
            }
            upper
        } else {
            let upper = self.with_year(until.succ()).into_bytes();
            proof {
                until.lemma_bound();
                assert(upper@ =~= personal_prefix_bytes(self@).push((until@ + 1) as u8));
            }
            upper
        };
        ScanRange { from, upper }
    }
}

impl MasterKeyPrefix {
    /// The range of the keys of this prefix with a year from `since` to
    /// `until`. With the sentinel as `until` the range is open above.
    pub fn scan(&self, since: AnnoLichess, until: AnnoLichess) -> (range: ScanRange)
        ensures
            range.from@ == master_key_bytes(self@, since@),
            range.upper@ == upper_bound(master_prefix_bytes(self@), until@),
    {
        let from = self.with_year(since).into_bytes();
        let upper = if until.is_max() {
            let mut upper = self.with_year(until).into_bytes();
            upper.push(0);
            proof {
                assert(upper@ =~= master_prefix_bytes(self@).push(255).push(0));
            }
            upper
        } else {
            let upper = self.with_year(until.succ()).into_bytes();
            proof {
                until.lemma_bound();
                assert(upper@ =~= master_prefix_bytes(self@).push((until@ + 1) as u8));
            }
            upper
        };
        ScanRange { from, upper }
    }
}

/// A scan of a personal prefix from `since` to `until` meets the keys of
/// that prefix with a year in those bounds, and no other personal key.
pub proof fn lemma_personal_scan(
    prefix: PersonalPrefixView,
    since: u8,
    until: u8,
    other: PersonalPrefixView,
    year: u8,
)
    requires
        is_handle(prefix.user),
        is_handle(other.user),
    ensures
        in_range(
            personal_key_bytes(prefix, since as nat),
            upper_bound(personal_prefix_bytes(prefix), until as nat),
            personal_key_bytes(other, year as nat),
        ) <==> (other == prefix && since <= year <= until),
{
    lemma_personal_prefix_fields(prefix);
    lemma_personal_prefix_fields(other);
    if until < 255 {
        lemma_range_of_prefix(
            personal_prefix_bytes(prefix),
            since,
            (until + 1) as u8,
            personal_prefix_bytes(other),
            year,
        );
    } else {
        lemma_open_range_of_prefix(
            personal_prefix_bytes(prefix),
            since,
            personal_prefix_bytes(other),
            year,
        );
    }
    if personal_prefix_bytes(other) == personal_prefix_bytes(prefix) {
        lemma_personal_prefix_injective(other, prefix);
    }
}

/// A scan of a master prefix from `since` to `until` meets the keys of that
/// prefix with a year in those bounds, and no other master key.
pub proof fn lemma_master_scan(
    prefix: MasterPrefixView,
    since: u8,
    until: u8,
    other: MasterPrefixView,
    year: u8,
)
    ensures
        in_range(
            master_key_bytes(prefix, since as nat),
            upper_bound(master_prefix_bytes(prefix), until as nat),
            master_key_bytes(other, year as nat),
        ) <==> (other == prefix && since <= year <= until),
{
    lemma_master_prefix_fields(prefix);
    lemma_master_prefix_fields(other);
    if until < 255 {
        lemma_range_of_prefix(
            master_prefix_bytes(prefix),
            since,
            (until + 1) as u8,
            master_prefix_bytes(other),
            year,
        );
    } else {
        lemma_open_range_of_prefix(
            master_prefix_bytes(prefix),
            since,
            master_prefix_bytes(other),
            year,
        );
    }
    if master_prefix_bytes(other) == master_prefix_bytes(prefix) {
        lemma_master_prefix_injective(other, prefix);
    }
}

} // verus!
