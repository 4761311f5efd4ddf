//! Composite keys. A key is the bytes of its fields in a fixed order and at
//! fixed widths, the year last, so that the keys of one position stand
//! together and in the order of their years.

use vstd::prelude::*;
use vstd::slice::slice_subrange;
use crate::model::basic::{Color, Variant};
use crate::model::endian::{
    append_bytes, be_bytes, lemma_be_bytes_len, lemma_be_limits, lemma_be_roundtrip,
    lemma_be_value_roundtrip, u128_from_be, u128_to_be,
};
use crate::model::user::{
    handle_char, is_handle, lemma_padded_injective, padded, UserId, USER_ID_WIDTH,
};
use crate::model::year::AnnoLichess;

verus! {

/// Length of the bytes of a personal key without its year.
pub const PERSONAL_PREFIX_LEN: usize = 38;

/// Length of the bytes of a master key without its year.
pub const MASTER_PREFIX_LEN: usize = 17;

/// Whose moves, from which position.
pub struct PersonalPrefixView {
    pub user: Seq<u8>,
    pub color: Color,
    pub variant: Variant,
    pub hash: u128,
}

/// The bytes of a personal key without its year.
pub open spec fn personal_prefix_bytes(p: PersonalPrefixView) -> Seq<u8> {
    padded(p.user) + seq![p.color.byte(), p.variant.byte()] + be_bytes(p.hash as nat, 16)
}

/// The bytes of a personal key.
pub open spec fn personal_key_bytes(p: PersonalPrefixView, year: nat) -> Seq<u8> {
    personal_prefix_bytes(p).push(year as u8)
}

/// A position of the master corpus.
pub struct MasterPrefixView {
    pub variant: Variant,
    pub hash: u128,
}

/// The bytes of a master key without its year.
pub open spec fn master_prefix_bytes(p: MasterPrefixView) -> Seq<u8> {
    seq![p.variant.byte()] + be_bytes(p.hash as nat, 16)
}

/// The bytes of a master key.
pub open spec fn master_key_bytes(p: MasterPrefixView, year: nat) -> Seq<u8> {
    master_prefix_bytes(p).push(year as u8)
}

/// The bytes of a personal prefix have one length, and give each field back.
pub proof fn lemma_personal_prefix_fields(p: PersonalPrefixView)
    requires
        is_handle(p.user),
    ensures
        personal_prefix_bytes(p).len() == PERSONAL_PREFIX_LEN,
        personal_prefix_bytes(p).subrange(0, 20) == padded(p.user),
        personal_prefix_bytes(p)[20] == p.color.byte(),
        personal_prefix_bytes(p)[21] == p.variant.byte(),
        personal_prefix_bytes(p).subrange(22, 38) == be_bytes(p.hash as nat, 16),
{
    lemma_be_bytes_len(p.hash as nat, 16);
    let b = personal_prefix_bytes(p);
    assert(b.subrange(0, 20) =~= padded(p.user));
    assert(b.subrange(22, 38) =~= be_bytes(p.hash as nat, 16));
}

/// The bytes of a master prefix have one length, and give each field back.
pub proof fn lemma_master_prefix_fields(p: MasterPrefixView)
    ensures
        master_prefix_bytes(p).len() == MASTER_PREFIX_LEN,
        master_prefix_bytes(p)[0] == p.variant.byte(),
        master_prefix_bytes(p).subrange(1, 17) == be_bytes(p.hash as nat, 16),
{
    lemma_be_bytes_len(p.hash as nat, 16);
    let b = master_prefix_bytes(p);
    assert(b.subrange(1, 17) =~= be_bytes(p.hash as nat, 16));
}

proof fn lemma_hash_injective(a: u128, b: u128)
    requires
        be_bytes(a as nat, 16) == be_bytes(b as nat, 16),
    ensures
        a == b,
{
    lemma_be_limits();
    lemma_be_roundtrip(a as nat, 16);
    lemma_be_roundtrip(b as nat, 16);
}

/// Two personal prefixes with the same bytes are the same prefix.
pub proof fn lemma_personal_prefix_injective(p: PersonalPrefixView, q: PersonalPrefixView)
    requires
        is_handle(p.user),
        is_handle(q.user),
        personal_prefix_bytes(p) == personal_prefix_bytes(q),
    ensures
        p == q,
{
    lemma_personal_prefix_fields(p);
    lemma_personal_prefix_fields(q);
    lemma_padded_injective(p.user, q.user);
    lemma_hash_injective(p.hash, q.hash);
}

/// Two master prefixes with the same bytes are the same prefix.
pub proof fn lemma_master_prefix_injective(p: MasterPrefixView, q: MasterPrefixView)
    requires
        master_prefix_bytes(p) == master_prefix_bytes(q),
    ensures
        p == q,
{
    lemma_master_prefix_fields(p);
    lemma_master_prefix_fields(q);
    lemma_hash_injective(p.hash, q.hash);
}

/// The bytes of a personal key are the bytes of its prefix followed by its
/// year, and the keys of two different prefixes differ at a byte before the
/// year.
pub proof fn lemma_personal_prefix_containment(
    p: PersonalPrefixView,
    year: u8,
    q: PersonalPrefixView,
    other_year: u8,
)
    requires
        is_handle(p.user),
        is_handle(q.user),
    ensures
        personal_key_bytes(p, year as nat) == personal_prefix_bytes(p) + seq![year],
        personal_key_bytes(p, year as nat).len() == PERSONAL_PREFIX_LEN + 1,
        p != q ==> exists|i: int|
            0 <= i < PERSONAL_PREFIX_LEN && personal_key_bytes(p, year as nat)[i]
                != personal_key_bytes(q, other_year as nat)[i],
{
    lemma_personal_prefix_fields(p);
    lemma_personal_prefix_fields(q);
    let a = personal_key_bytes(p, year as nat);
    let b = personal_key_bytes(q, other_year as nat);
    assert(a =~= personal_prefix_bytes(p) + seq![year]);
    if p != q {
        if forall|i: int| 0 <= i < PERSONAL_PREFIX_LEN ==> a[i] == b[i] {
            assert forall|i: int| 0 <= i < 38 implies personal_prefix_bytes(p)[i]
                == personal_prefix_bytes(q)[i] by {
                assert(a[i] == personal_prefix_bytes(p)[i]);
                assert(b[i] == personal_prefix_bytes(q)[i]);
            }
            assert(personal_prefix_bytes(p) =~= personal_prefix_bytes(q));
            lemma_personal_prefix_injective(p, q);
        }
    }
}

/// The same for master keys.
pub proof fn lemma_master_prefix_containment(
    p: MasterPrefixView,
    year: u8,
    q: MasterPrefixView,
    other_year: u8,
)
    ensures
        master_key_bytes(p, year as nat) == master_prefix_bytes(p) + seq![year],
        master_key_bytes(p, year as nat).len() == MASTER_PREFIX_LEN + 1,
        p != q ==> exists|i: int|
            0 <= i < MASTER_PREFIX_LEN && master_key_bytes(p, year as nat)[i] != master_key_bytes(
                q,
                other_year as nat,
            )[i],
{
    lemma_master_prefix_fields(p);
    lemma_master_prefix_fields(q);
    let a = master_key_bytes(p, year as nat);
    let b = master_key_bytes(q, other_year as nat);
    assert(a =~= master_prefix_bytes(p) + seq![year]);
    if p != q {
        if forall|i: int| 0 <= i < MASTER_PREFIX_LEN ==> a[i] == b[i] {
            assert forall|i: int| 0 <= i < 17 implies master_prefix_bytes(p)[i]
                == master_prefix_bytes(q)[i] by {
                assert(a[i] == master_prefix_bytes(p)[i]);
                assert(b[i] == master_prefix_bytes(q)[i]);
            }
            assert(master_prefix_bytes(p) =~= master_prefix_bytes(q));
            lemma_master_prefix_injective(p, q);
        }
    }
}

/// The player, colour, variant and position of a personal key.
pub struct PersonalKeyPrefix {
    user: UserId,
    color: Color,
    variant: Variant,
    hash: u128,
}

impl View for PersonalKeyPrefix {
    type V = PersonalPrefixView;

    closed spec fn view(&self) -> PersonalPrefixView {
        PersonalPrefixView {
            user: self.user@,
            color: self.color,
            variant: self.variant,
            hash: self.hash,
        }
    }
}

/// A key of the personal keyspace.
pub struct PersonalKey {
    prefix: PersonalKeyPrefix,
    year: AnnoLichess,
}

/// The variant and position of a master key.
#[derive(Clone, Copy, Debug, PartialEq, Eq, Structural, Hash)]
pub struct MasterKeyPrefix {
    variant: Variant,
    hash: u128,
}

impl View for MasterKeyPrefix {
    type V = MasterPrefixView;

    closed spec fn view(&self) -> MasterPrefixView {
        MasterPrefixView { variant: self.variant, hash: self.hash }
    }
}

/// A key of the master keyspace.
#[derive(Clone, Copy, Debug, PartialEq, Eq, Structural, Hash)]
pub struct MasterKey {
    prefix: MasterKeyPrefix,
    year: AnnoLichess,
}

/// Where the building of a key starts.
pub struct KeyBuilder {}

/// A personal key of which the player and the colour are chosen.
pub struct PersonalKeyBuilder {
    user: UserId,
    color: Color,
}

/// A master key of which nothing is chosen yet.
pub struct MasterKeyBuilder {}

impl KeyBuilder {
    /// Starts a key of the master keyspace.
    pub fn master() -> MasterKeyBuilder {
        MasterKeyBuilder {  }
    }

    /// Starts a key of the personal keyspace.
    pub fn personal(user: &UserId, color: Color) -> (builder: PersonalKeyBuilder)
        requires
            user.wf(),
        ensures
            builder.user_view() == user@,
            builder.color_view() == color,
            builder.wf(),
    {
        PersonalKeyBuilder { user: user.duplicate(), color }
    }
}

impl MasterKeyBuilder {
    /// Chooses the variant and the position.
    pub fn with_zobrist(self, variant: Variant, hash: u128) -> (prefix: MasterKeyPrefix)
        ensures
            prefix@ == (MasterPrefixView { variant, hash }),
    {
        MasterKeyPrefix { variant, hash }
    }
}

impl PersonalKeyBuilder {
    /// The player.
    pub closed spec fn user_view(&self) -> Seq<u8> {
        self.user@
    }

    /// The colour.
    pub closed spec fn color_view(&self) -> Color {
        self.color
    }

    /// The player is a normalized handle.
    pub open spec fn wf(&self) -> bool {
        is_handle(self.user_view())
    }

    /// Chooses the variant and the position.
    pub fn with_zobrist(self, variant: Variant, hash: u128) -> (prefix: PersonalKeyPrefix)
        requires
            self.wf(),
        ensures
            prefix@ == (PersonalPrefixView {
                user: self.user_view(),
                color: self.color_view(),
                variant,
                hash,
            }),
            prefix.wf(),
    {
        PersonalKeyPrefix { user: self.user, color: self.color, variant, hash }
    }
}

impl MasterKeyPrefix {
    /// The variant.
    pub fn variant(&self) -> (variant: Variant)
        ensures
            variant == self@.variant,
    {
        self.variant
    }

    /// The position.
    pub fn hash(&self) -> (hash: u128)
        ensures
            hash == self@.hash,
    {
        self.hash
    }

    /// The key of this position in the given year.
    pub fn with_year(&self, year: AnnoLichess) -> (key: MasterKey)
        ensures
            key.prefix_view() == self@,
            key.year_view() == year@,
    {
        MasterKey { prefix: *self, year }
    }

    /// The bytes of the prefix.
    pub fn into_bytes(&self) -> (bytes: Vec<u8>)
        ensures
            bytes@ == master_prefix_bytes(self@),
    {
        let mut bytes: Vec<u8> = Vec::new();
        bytes.push(self.variant.to_byte());
        let hash = u128_to_be(self.hash);
        append_bytes(&mut bytes, hash.as_slice());
        proof {
            assert(bytes@ =~= master_prefix_bytes(self@));
        }
        bytes
    }
}

impl MasterKey {
    /// The prefix of the key.
    pub closed spec fn prefix_view(&self) -> MasterPrefixView {
        self.prefix@
    }

    /// The byte of the year of the key.
    pub closed spec fn year_view(&self) -> nat {
        self.year@
    }

    /// The prefix of the key.
    pub fn prefix(&self) -> (prefix: MasterKeyPrefix)
        ensures
            prefix@ == self.prefix_view(),
    {
        self.prefix
    }

    /// The year of the key.
    pub fn year(&self) -> (year: AnnoLichess)
        ensures
            year@ == self.year_view(),
    {
        self.year
    }

    /// The bytes of the key: those of the prefix, then the year.
    pub fn into_bytes(&self) -> (bytes: Vec<u8>)
        ensures
            bytes@ == master_key_bytes(self.prefix_view(), self.year_view()),
            bytes@.len() == MASTER_PREFIX_LEN + 1,
    {
        let mut bytes = self.prefix.into_bytes();
        bytes.push(self.year.to_byte());
        proof {
            lemma_master_prefix_fields(self.prefix@);
        }
        bytes
    }
}

impl PersonalKeyPrefix {
    /// The player is a normalized handle.
    pub open spec fn wf(&self) -> bool {
        is_handle(self@.user)
    }

    /// A copy of the prefix.
    pub fn duplicate(&self) -> (prefix: PersonalKeyPrefix)
        ensures
            prefix@ == self@,
            self.wf() ==> prefix.wf(),
    {
        PersonalKeyPrefix {
            user: self.user.duplicate(),
            color: self.color,
            variant: self.variant,
            hash: self.hash,
        }
    }

    /// The key of this prefix in the given year.
    pub fn with_year(&self, year: AnnoLichess) -> (key: PersonalKey)
        ensures
            key.prefix_view() == self@,
            key.year_view() == year@,
            self.wf() ==> key.wf(),
    {
        PersonalKey { prefix: self.duplicate(), year }
    }

    /// The bytes of the prefix.
    pub fn into_bytes(&self) -> (bytes: Vec<u8>)
        requires
            self.wf(),
        ensures
            bytes@ == personal_prefix_bytes(self@),
    {
        let mut bytes: Vec<u8> = Vec::new();
        self.user.write_padded(&mut bytes);
        bytes.push(self.color.to_byte());
        bytes.push(self.variant.to_byte());
        let hash = u128_to_be(self.hash);
        append_bytes(&mut bytes, hash.as_slice());
        proof {
            assert(bytes@ =~= personal_prefix_bytes(self@));
        }
        bytes
    }
}

impl PersonalKey {
    /// The prefix of the key.
    pub closed spec fn prefix_view(&self) -> PersonalPrefixView {
        self.prefix@
    }

    /// The byte of the year of the key.
    pub closed spec fn year_view(&self) -> nat {
        self.year@
    }

    /// The player is a normalized handle.
    pub open spec fn wf(&self) -> bool {
        is_handle(self.prefix_view().user)
    }

    /// The year of the key.
    pub fn year(&self) -> (year: AnnoLichess)
        ensures
            year@ == self.year_view(),
    {
        self.year
    }

    /// The bytes of the key: those of the prefix, then the year.
    pub fn into_bytes(&self) -> (bytes: Vec<u8>)
        requires
            self.wf(),
        ensures
            bytes@ == personal_key_bytes(self.prefix_view(), self.year_view()),
            bytes@.len() == PERSONAL_PREFIX_LEN + 1,
    {
        let mut bytes = self.prefix.into_bytes();
        bytes.push(self.year.to_byte());
        proof {
            lemma_personal_prefix_fields(self.prefix@);
        }
        bytes
    }
}

/// Whether the bytes are those of a master key.
pub open spec fn is_master_key(bytes: Seq<u8>) -> bool {
    exists|p: MasterPrefixView, year: u8| bytes == #[trigger] master_key_bytes(p, year as nat)
}

/// Whether the bytes are those of a personal key.
pub open spec fn is_personal_key(bytes: Seq<u8>) -> bool {
    exists|p: PersonalPrefixView, year: u8|
        is_handle(p.user) && bytes == #[trigger] personal_key_bytes(p, year as nat)
}

impl MasterKey {
    /// Reads a key from its bytes: the key, if the bytes are those of a
    /// master key.
    pub fn parse(bytes: &[u8]) -> (r: Option<MasterKey>)
        ensures
            match r {
                Some(key) => bytes@ == master_key_bytes(key.prefix_view(), key.year_view()),
                None => !is_master_key(bytes@),
            },
    {
        if bytes.len() != MASTER_PREFIX_LEN + 1 {
            proof {
                assert forall|p: MasterPrefixView, year: u8|
                    bytes@ != #[trigger] master_key_bytes(p, year as nat) by {
                    lemma_master_prefix_fields(p);
                }
            }
            return None;
        }
        let variant = match Variant::from_byte(bytes[0]) {
            Some(variant) => variant,
            None => {
                proof {
                    assert forall|p: MasterPrefixView, year: u8|
                        bytes@ != #[trigger] master_key_bytes(p, year as nat) by {
                        lemma_master_prefix_fields(p);
                        assert(master_key_bytes(p, year as nat)[0] == p.variant.byte());
                    }
                }
                return None;
            },
        };
        let field = slice_subrange(bytes, 1, 17);
        let hash = u128_from_be(field);
        let year = AnnoLichess::from_byte(bytes[17]);
        let key = MasterKey { prefix: MasterKeyPrefix { variant, hash }, year };
        proof {
            assert(field@.take(16) =~= field@);
            lemma_be_value_roundtrip(field@);
            lemma_be_limits();
            let p = key.prefix_view();
            lemma_master_prefix_fields(p);
            let made = master_key_bytes(p, key.year_view());
            assert(made.len() == 18);
            assert forall|i: int| 0 <= i < 18 implies made[i] == bytes@[i] by {
                if 1 <= i < 17 {
                    assert(made[i] == master_prefix_bytes(p).subrange(1, 17)[i - 1]);
                    assert(field@[i - 1] == bytes@[i]);
                }
            }
            assert(made =~= bytes@);
        }
        Some(key)
    }
}

/// The length of the handle at the front of a padded handle: the index of
/// the first zero byte.
fn handle_len(bytes: &[u8]) -> (n: usize)
    requires
        bytes@.len() >= USER_ID_WIDTH,
    ensures
        n <= USER_ID_WIDTH,
        forall|i: int| 0 <= i < n ==> bytes@[i] != 0,
        n < USER_ID_WIDTH ==> bytes@[n as int] == 0,
{
    let mut n: usize = 0;
    while n < USER_ID_WIDTH && bytes[n] != 0
        invariant
            n <= USER_ID_WIDTH,
            bytes@.len() >= USER_ID_WIDTH,
            forall|i: int| 0 <= i < n ==> bytes@[i] != 0,
        decreases USER_ID_WIDTH - n,
    {
        n = n + 1;
    }
    n
}

/// Whether the bytes from `from` up to the width of a handle are zero.
fn zero_padded(bytes: &[u8], from: usize) -> (b: bool)
    requires
        from <= USER_ID_WIDTH <= bytes@.len(),
    ensures
        b == forall|i: int| from <= i < USER_ID_WIDTH ==> bytes@[i] == 0,
{
    let mut i: usize = from;
    while i < USER_ID_WIDTH
        invariant
            from <= i <= USER_ID_WIDTH,
            USER_ID_WIDTH <= bytes@.len(),
            forall|j: int| from <= j < i ==> bytes@[j] == 0,
        decreases USER_ID_WIDTH - i,
    {
        if bytes[i] != 0 {
            return false;
        }
        i = i + 1;
    }
    true
}

/// The front of the bytes of a personal key is a handle, then zero bytes.
proof fn lemma_padded_shape(p: PersonalPrefixView, year: u8)
    requires
        is_handle(p.user),
    ensures
        personal_key_bytes(p, year as nat).len() == PERSONAL_PREFIX_LEN + 1,
        forall|i: int|
            0 <= i < p.user.len() ==> personal_key_bytes(p, year as nat)[i] == p.user[i]
                && handle_char(p.user[i]),
        forall|i: int|
            p.user.len() <= i < USER_ID_WIDTH ==> personal_key_bytes(p, year as nat)[i] == 0,
        personal_key_bytes(p, year as nat)[20] == p.color.byte(),
        personal_key_bytes(p, year as nat)[21] == p.variant.byte(),
{
    lemma_personal_prefix_fields(p);
    let bytes = personal_key_bytes(p, year as nat);
    let prefix = personal_prefix_bytes(p);
    assert forall|i: int| 0 <= i < 20 implies bytes[i] == padded(p.user)[i] by {
        assert(prefix.subrange(0, 20)[i] == prefix[i]);
    }
}

impl PersonalKey {
    /// Reads a key from its bytes: the key, if the bytes are those of a
    /// personal key.
    pub fn parse(bytes: &[u8]) -> (r: Option<PersonalKey>)
        ensures
            match r {
                Some(key) => key.wf() && bytes@ == personal_key_bytes(
                    key.prefix_view(),
                    key.year_view(),
                ),
                None => !is_personal_key(bytes@),
            },
    {
        if bytes.len() != PERSONAL_PREFIX_LEN + 1 {
            proof {
                assert forall|p: PersonalPrefixView, year: u8| is_handle(p.user) implies bytes@
                    != #[trigger] personal_key_bytes(p, year as nat) by {
                    lemma_padded_shape(p, year);
                }
            }
            return None;
        }
        let n = handle_len(bytes);
        let padding = zero_padded(bytes, n);
        let name = slice_subrange(bytes, 0, n);
        let user = UserId::from_normalized(name);
        let color = Color::from_byte(bytes[20]);
        let variant = Variant::from_byte(bytes[21]);
        match (padding, user, color, variant) {
            (true, Some(user), Some(color), Some(variant)) => {
                let field = slice_subrange(bytes, 22, 38);
                let hash = u128_from_be(field);
                let year = AnnoLichess::from_byte(bytes[38]);
                let key = PersonalKey { prefix: PersonalKeyPrefix { user, color, variant, hash }, year };
                proof {
                    assert(field@.take(16) =~= field@);
                    lemma_be_value_roundtrip(field@);
                    lemma_be_limits();
                    let p = key.prefix_view();
                    lemma_personal_prefix_fields(p);
                    lemma_padded_shape(p, bytes@[38]);
                    let made = personal_key_bytes(p, key.year_view());
                    assert forall|i: int| 0 <= i < 39 implies made[i] == bytes@[i] by {
                        if i < n {
                            assert(name@[i] == bytes@[i]);
                        } else if 22 <= i < 38 {
                            assert(made[i] == personal_prefix_bytes(p).subrange(22, 38)[i - 22]);
                            assert(field@[i - 22] == bytes@[i]);
                        }
                    }
                    assert(made =~= bytes@);
                }
                Some(key)
            },
            _ => {
                proof {
                    assert forall|p: PersonalPrefixView, year: u8| is_handle(p.user) implies bytes@
                        != #[trigger] personal_key_bytes(p, year as nat) by {
                        lemma_padded_shape(p, year);
                        let made = personal_key_bytes(p, year as nat);
                        if bytes@ == made {
                            let len = p.user.len() as int;
                            assert(len == n) by {
                                if len < n {
                                    assert(made[len] == 0);
                                } else if n < len {
                                    assert(made[n as int] == p.user[n as int]);
                                    assert(handle_char(p.user[n as int]));
                                }
                            }
                            assert(name@ =~= p.user);
                        }
                    }
                }
                None
            },
        }
    }
}

} // verus!
