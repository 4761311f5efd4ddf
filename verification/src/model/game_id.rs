//! Game identifiers: eight characters of `0-9A-Za-z` as text, six bytes on
//! disk.

use vstd::prelude::*;
use crate::model::endian::{
    append_bytes, be_bytes, be_value, lemma_be_limits, lemma_be_roundtrip, u48_from_be, u48_to_be,
};
use crate::model::reader::{DecodeError, Reader};

verus! {

/// Number of characters of an identifier.
pub const GAME_ID_LEN: usize = 8;

/// Number of identifiers: `62` to the power `8`.
pub const GAME_ID_LIMIT: u64 = 218_340_105_584_896;

/// The digit that a character stands for.
pub open spec fn digit_value(c: u8) -> Option<nat> {
    if 48 <= c <= 57 {
        Some((c - 48) as nat)
    } else if 65 <= c <= 90 {
        Some((c - 65 + 10) as nat)
    } else if 97 <= c <= 122 {
        Some((c - 97 + 36) as nat)
    } else {
        None
    }
}

/// The character that stands for a digit below 62.
pub open spec fn digit_char(d: nat) -> u8 {
    if d < 10 {
        (48 + d) as u8
    } else if d < 36 {
        (65 + d - 10) as u8
    } else {
        (97 + d - 36) as u8
    }
}

/// The number that a text spells in base 62, most significant digit first.
pub open spec fn text_value(s: Seq<u8>) -> Option<nat>
    decreases s.len(),
{
    if s.len() == 0 {
        Some(0)
    } else {
        match (text_value(s.drop_last()), digit_value(s.last())) {
            (Some(high), Some(d)) => Some(high * 62 + d),
            _ => None,
        }
    }
}

/// The `len` low digits of `n` in base 62, most significant first.
pub open spec fn id_text(n: nat, len: nat) -> Seq<u8>
    decreases len,
{
    if len == 0 {
        Seq::empty()
    } else {
        id_text(n / 62, (len - 1) as nat).push(digit_char(n % 62))
    }
}

/// `62` to the power `len`.
pub open spec fn text_limit(len: nat) -> nat
    decreases len,
{
    if len == 0 {
        1
    } else {
        62 * text_limit((len - 1) as nat)
    }
}

/// The text of a number below `62^len` spells that number.
pub proof fn lemma_text_roundtrip(n: nat, len: nat)
    requires
        n < text_limit(len),
    ensures
        id_text(n, len).len() == len,
        text_value(id_text(n, len)) == Some(n),
    decreases len,
{
    if len > 0 {
        let head = id_text(n / 62, (len - 1) as nat);
        assert(id_text(n, len).drop_last() =~= head);
        lemma_text_roundtrip(n / 62, (len - 1) as nat);
    }
}

/// A text that spells a number has only digits, and the number is below
/// `62^len`.
pub proof fn lemma_text_value_bound(s: Seq<u8>)
    requires
        text_value(s) is Some,
    ensures
        text_value(s).unwrap() < text_limit(s.len()),
    decreases s.len(),
{
    if s.len() > 0 {
        lemma_text_value_bound(s.drop_last());
    }
}

/// The text of an identifier has eight characters and spells the
/// identifier.
pub proof fn lemma_game_id_text_roundtrip(id: GameId)
    requires
        id.wf(),
    ensures
        id_text(id@, 8).len() == 8,
        text_value(id_text(id@, 8)) == Some(id@),
{
    lemma_text_limit_8();
    lemma_text_roundtrip(id@, 8);
}

proof fn lemma_text_limit_8()
    ensures
        text_limit(8) == GAME_ID_LIMIT,
{
    reveal_with_fuel(text_limit, 9);
}

/// The identifier of a game.
#[derive(Clone, Copy, Debug, PartialEq, Eq, Structural, Hash)]
pub struct GameId {
    n: u64,
}

impl View for GameId {
    type V = nat;

    /// The identifier as a number.
    closed spec fn view(&self) -> nat {
        self.n as nat
    }
}

impl GameId {
    /// Every identifier is below `GAME_ID_LIMIT`.
    pub closed spec fn wf(&self) -> bool {
        self.n < GAME_ID_LIMIT
    }

    /// The number of a well-formed identifier is below the limit.
    pub proof fn lemma_bound(&self)
        requires
            self.wf(),
        ensures
            self@ < GAME_ID_LIMIT,
    {
    }

    /// The identifier with the given number, if there is one.
    pub fn from_u64(n: u64) -> (r: Option<GameId>)
        ensures
            n < GAME_ID_LIMIT ==> r is Some && r.unwrap()@ == n && r.unwrap().wf(),
            n >= GAME_ID_LIMIT ==> r is None,
    {
        if n < GAME_ID_LIMIT {
            Some(GameId { n })
        } else {
            None
        }
    }

    /// The identifier as a number.
    pub fn to_u64(&self) -> (n: u64)
        ensures
            n == self@,
    {
        self.n
    }

    /// Reads an identifier from its eight-character text.
    pub fn parse(text: &[u8]) -> (r: Option<GameId>)
        ensures
            text@.len() == 8 && text_value(text@) is Some ==> r is Some && r.unwrap()@
                == text_value(text@).unwrap() && r.unwrap().wf(),
            !(text@.len() == 8 && text_value(text@) is Some) ==> r is None,
    {
        if text.len() != GAME_ID_LEN {
            return None;
        }
        let mut n: u64 = 0;
        let mut i: usize = 0;
        proof {
            lemma_text_limit_8();
            reveal_with_fuel(text_limit, 9);
            assert(text@.take(0) =~= Seq::<u8>::empty());
        }
        while i < GAME_ID_LEN
            invariant
                i <= 8,
                text@.len() == 8,
                text_value(text@.take(i as int)) == Some(n as nat),
                n < text_limit(i as nat),
                text_limit(8) == GAME_ID_LIMIT,
            decreases 8 - i,
        {
            let c = text[i];
            let d: u64 = if 48 <= c && c <= 57 {
                (c - 48) as u64
            } else if 65 <= c && c <= 90 {
                (c - 65 + 10) as u64
            } else if 97 <= c && c <= 122 {
                (c - 97 + 36) as u64
            } else {
                proof {
                    lemma_text_none_from(text@, i as int);
                }
                return None;
            };
            proof {
                let next = text@.take(i + 1);
                assert(next.drop_last() =~= text@.take(i as int));
                assert(next.last() == c);
                lemma_text_value_bound(next);
                lemma_text_limit_mono((i + 1) as nat, 8);
            }
            n = n * 62 + d;
            i = i + 1;
        }
        proof {
            assert(text@.take(8) =~= text@);
        }
        Some(GameId { n })
    }

    /// The eight-character text of the identifier.
    pub fn to_text(&self) -> (text: Vec<u8>)
        requires
            self.wf(),
        ensures
            text@ == id_text(self@, 8),
            text@.len() == 8,
    {
        let mut text: Vec<u8> = Vec::new();
        let mut k: usize = 0;
        while k < GAME_ID_LEN
            invariant
                k <= 8,
                text@.len() == k,
            decreases 8 - k,
        {
            text.push(48);
            k = k + 1;
        }
        let mut n: u64 = self.n;
        let mut i: usize = 0;
        proof {
            assert(id_text(self@, 8) =~= id_text(n as nat, 8) + text@.skip(8));
        }
        while i < GAME_ID_LEN
            invariant
                i <= 8,
                text@.len() == 8,
                id_text(self@, 8) == id_text(n as nat, (8 - i) as nat) + text@.skip(8 - i),
            decreases 8 - i,
        {
            let d = n % 62;
            let c: u8 = if d < 10 {
                (48 + d) as u8
            } else if d < 36 {
                (65 + d - 10) as u8
            } else {
                (97 + d - 36) as u8
            };
            let ghost before = text@;
            text.set(GAME_ID_LEN - 1 - i, c);
            proof {
                let head = id_text((n / 62) as nat, (8 - i - 1) as nat);
                assert(id_text(n as nat, (8 - i) as nat) == head.push(c));
                assert(text@.skip(8 - i - 1) =~= seq![c] + before.skip(8 - i));
                assert(head.push(c) + before.skip(8 - i) =~= head + text@.skip(8 - i - 1));
            }
            n = n / 62;
            i = i + 1;
        }
        proof {
            assert(id_text(n as nat, 0) + text@.skip(0) =~= text@);
        }
        text
    }

    /// The six bytes that stand for the identifier on disk.
    pub fn to_bytes(&self) -> (bytes: [u8; 6])
        requires
            self.wf(),
        ensures
            bytes@ == be_bytes(self@, 6),
    {
        u48_to_be(self.n)
    }

    /// Appends the six bytes of the identifier.
    pub fn write(&self, out: &mut Vec<u8>)
        requires
            self.wf(),
        ensures
            final(out)@ == old(out)@ + be_bytes(self@, 6),
    {
        let bytes = u48_to_be(self.n);
        append_bytes(out, bytes.as_slice());
    }

    /// Reads six bytes as an identifier. The bytes must spell a number below
    /// `GAME_ID_LIMIT`.
    pub fn read(reader: &mut Reader) -> (r: Result<GameId, DecodeError>)
        ensures
            match r {
                Ok(id) => id.wf() && game_id_decoding(old(reader)@) == Ok::<_, DecodeError>(
                    (id@, final(reader)@),
                ),
                Err(e) => game_id_decoding(old(reader)@) == Err::<(nat, Seq<u8>), _>(e),
            },
    {
        let bytes = match reader.read_exact(6) {
            Ok(bytes) => bytes,
            Err(e) => {
                return Err(e);
            },
        };
        proof {
            assert(bytes@.take(6) =~= bytes@);
        }
        let n = u48_from_be(bytes);
        if n < GAME_ID_LIMIT {
            Ok(GameId { n })
        } else {
            Err(DecodeError::InvalidData)
        }
    }
}

/// The identifier at the front of `s` and the bytes that follow it.
pub open spec fn game_id_decoding(s: Seq<u8>) -> Result<(nat, Seq<u8>), DecodeError> {
    if s.len() < 6 {
        Err(DecodeError::UnexpectedEof)
    } else if be_value(s.take(6)) >= GAME_ID_LIMIT {
        Err(DecodeError::InvalidData)
    } else {
        Ok((be_value(s.take(6)), s.skip(6)))
    }
}

/// An identifier is read back from its six bytes, whatever follows them.
pub proof fn lemma_game_id_roundtrip(id: GameId, rest: Seq<u8>)
    requires
        id.wf(),
    ensures
        game_id_decoding(be_bytes(id@, 6) + rest) == Ok::<_, DecodeError>((id@, rest)),
{
    let s = be_bytes(id@, 6) + rest;
    crate::model::endian::lemma_be_bytes_len(id@, 6);
    lemma_be_limits();
    lemma_be_roundtrip(id@, 6);
    assert(s.take(6) =~= be_bytes(id@, 6));
    assert(s.skip(6) =~= rest);
}

proof fn lemma_text_none_from(s: Seq<u8>, i: int)
    requires
        0 <= i < s.len(),
        digit_value(s[i]) is None,
    ensures
        text_value(s) is None,
    decreases s.len(),
{
    if i < s.len() - 1 {
        lemma_text_none_from(s.drop_last(), i);
    }
}

proof fn lemma_text_limit_mono(a: nat, b: nat)
    requires
        a <= b,
    ensures
        text_limit(a) <= text_limit(b),
        text_limit(a) >= 1,
    decreases b,
{
    if a < b {
        lemma_text_limit_mono(a, (b - 1) as nat);
    } else if a > 0 {
        lemma_text_limit_mono((a - 1) as nat, (a - 1) as nat);
    }
}

} // verus!
