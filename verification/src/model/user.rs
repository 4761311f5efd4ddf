//! Player handles, normalized to lower case.

use vstd::prelude::*;
use vstd::slice::slice_to_vec;

verus! {

/// Width of a handle inside a key. Shorter handles are padded with zero
/// bytes.
pub const USER_ID_WIDTH: usize = 20;

/// The lower-case form of a character.
pub open spec fn lower(c: u8) -> u8 {
    if 65 <= c <= 90 {
        (c + 32) as u8
    } else {
        c
    }
}

/// The characters of a normalized handle: `a-z`, `0-9`, `_` and `-`.
pub open spec fn handle_char(c: u8) -> bool {
    (97 <= c <= 122) || (48 <= c <= 57) || c == 95 || c == 45
}

/// Whether `name` is a normalized handle.
pub open spec fn is_handle(name: Seq<u8>) -> bool {
    &&& 1 <= name.len() <= USER_ID_WIDTH
    &&& forall|i: int| 0 <= i < name.len() ==> handle_char(#[trigger] name[i])
}

/// The normalized form of a raw handle, if it has one.
pub open spec fn normalized(raw: Seq<u8>) -> Option<Seq<u8>> {
    let name = Seq::new(raw.len(), |i: int| lower(raw[i]));
    if is_handle(name) {
        Some(name)
    } else {
        None
    }
}

/// A handle padded with zero bytes to the width it has inside a key.
pub open spec fn padded(name: Seq<u8>) -> Seq<u8> {
    name + Seq::new((USER_ID_WIDTH - name.len()) as nat, |i: int| 0u8)
}

/// Two handles with the same padded form are the same handle.
pub proof fn lemma_padded_injective(a: Seq<u8>, b: Seq<u8>)
    requires
        is_handle(a),
        is_handle(b),
        padded(a) == padded(b),
    ensures
        a == b,
{
    let pa = padded(a);
    let pb = padded(b);
    if a.len() < b.len() {
        assert(pa[a.len() as int] == 0);
        assert(pb[a.len() as int] == b[a.len() as int]);
        assert(handle_char(b[a.len() as int]));
    } else if b.len() < a.len() {
        assert(pb[b.len() as int] == 0);
        assert(pa[b.len() as int] == a[b.len() as int]);
        assert(handle_char(a[b.len() as int]));
    } else {
        assert forall|i: int| 0 <= i < a.len() implies a[i] == b[i] by {
            assert(pa[i] == a[i]);
            assert(pb[i] == b[i]);
        }
        assert(a =~= b);
    }
}

/// A normalized player handle.
#[derive(Debug, PartialEq, Eq, Hash)]
pub struct UserId {
    name: Vec<u8>,
}

impl View for UserId {
    type V = Seq<u8>;

    /// The characters of the handle.
    closed spec fn view(&self) -> Seq<u8> {
        self.name@
    }
}

impl UserId {
    /// Every handle is normalized.
    pub open spec fn wf(&self) -> bool {
        is_handle(self@)
    }

    /// Normalizes a raw handle. Fails on an empty or overlong handle and on
    /// a character outside the alphabet.
    pub fn from_name(raw: &[u8]) -> (r: Option<UserId>)
        ensures
            match r {
                Some(user) => user.wf() && normalized(raw@) == Some(user@),
                None => normalized(raw@) is None,
            },
    {
        let ghost target = Seq::new(raw@.len(), |i: int| lower(raw@[i]));
        if raw.len() < 1 || raw.len() > USER_ID_WIDTH {
            return None;
        }
        let mut name: Vec<u8> = Vec::new();
        let mut i: usize = 0;
        while i < raw.len()
            invariant
                i <= raw.len(),
                raw@.len() <= USER_ID_WIDTH,
                target == Seq::new(raw@.len(), |i: int| lower(raw@[i])),
                name@ == target.take(i as int),
                forall|j: int| 0 <= j < i ==> handle_char(#[trigger] target[j]),
            decreases raw.len() - i,
        {
            let c = raw[i];
            let l: u8 = if 65 <= c && c <= 90 {
                c + 32
            } else {
                c
            };
            let ok = (97 <= l && l <= 122) || (48 <= l && l <= 57) || l == 95 || l == 45;
            if !ok {
                proof {
                    assert(!handle_char(target[i as int]));
                }
                return None;
            }
            name.push(l);
            proof {
                assert(name@ =~= target.take(i + 1));
            }
            i = i + 1;
        }
        proof {
            assert(target.take(raw@.len() as int) =~= target);
        }
        Some(UserId { name })
    }

    /// The handle with the given characters, if they are those of a
    /// normalized handle.
    pub fn from_normalized(name: &[u8]) -> (r: Option<UserId>)
        ensures
            match r {
                Some(user) => user.wf() && user@ == name@,
                None => !is_handle(name@),
            },
    {
        if name.len() < 1 || name.len() > USER_ID_WIDTH {
            return None;
        }
        let mut i: usize = 0;
        while i < name.len()
            invariant
                i <= name@.len(),
                forall|j: int| 0 <= j < i ==> handle_char(#[trigger] name@[j]),
            decreases name@.len() - i,
        {
            let c = name[i];
            let ok = (97 <= c && c <= 122) || (48 <= c && c <= 57) || c == 95 || c == 45;
            if !ok {
                return None;
            }
            i = i + 1;
        }
        Some(UserId { name: slice_to_vec(name) })
    }

    /// The characters of the handle.
    pub fn as_bytes(&self) -> (bytes: &[u8])
        ensures
            bytes@ == self@,
    {
        self.name.as_slice()
    }

    /// A copy of the handle.
    pub fn duplicate(&self) -> (user: UserId)
        ensures
            user@ == self@,
            self.wf() ==> user.wf(),
    {
        UserId { name: slice_to_vec(self.name.as_slice()) }
    }

    /// Appends the handle, padded to `USER_ID_WIDTH` bytes.
    pub fn write_padded(&self, out: &mut Vec<u8>)
        requires
            self.wf(),
        ensures
            final(out)@ == old(out)@ + padded(self@),
    {
        let mut i: usize = 0;
        while i < USER_ID_WIDTH
            invariant
                i <= USER_ID_WIDTH,
                self.wf(),
                out@ == old(out)@ + padded(self@).take(i as int),
            decreases USER_ID_WIDTH - i,
        {
            let b: u8 = if i < self.name.len() {
                self.name[i]
            } else {
                0
            };
            out.push(b);
            proof {
                assert(padded(self@).take(i + 1) =~= padded(self@).take(i as int).push(b));
            }
            i = i + 1;
        }
        proof {
            assert(padded(self@).take(USER_ID_WIDTH as int) =~= padded(self@));
        }
    }
}

} // verus!
