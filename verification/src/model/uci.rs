//! Moves in coordinate notation, and the sixteen-bit code of each.

use vstd::prelude::*;
use crate::model::reader::{DecodeError, Reader};

verus! {

/// A move as a pair of squares, a piece drop, or the null move. Squares
/// are numbered 0 to 63 from a1 by files, then ranks; roles 1 to 6 from pawn
/// to king.
#[derive(Clone, Copy, Debug, PartialEq, Eq, Structural, Hash)]
pub enum UciMove {
    Normal { from: u8, to: u8, promotion: Option<u8> },
    Put { role: u8, to: u8 },
    Null,
}

/// The code of the null move.
pub const NULL_CODE: u16 = 65535;

/// The code of the first piece drop.
pub const PUT_BASE: u16 = 32768;

impl UciMove {
    /// Squares and roles are in range.
    pub open spec fn wf(self) -> bool {
        match self {
            UciMove::Normal { from, to, promotion } => from < 64 && to < 64 && match promotion {
                Some(role) => 1 <= role <= 6,
                None => true,
            },
            UciMove::Put { role, to } => 1 <= role <= 6 && to < 64,
            UciMove::Null => true,
        }
    }

    /// The number that stands for a promotion in a code: the role, or 0
    /// for none.
    pub open spec fn promotion_code(promotion: Option<u8>) -> u8 {
        match promotion {
            Some(role) => role,
            None => 0,
        }
    }

    /// The code of the move: distinct moves have distinct codes.
    pub open spec fn code(self) -> u16 {
        match self {
            UciMove::Normal { from, to, promotion } => (from + 64 * to + 4096
                * UciMove::promotion_code(promotion)) as u16,
            UciMove::Put { role, to } => (PUT_BASE + to + 64 * role) as u16,
            UciMove::Null => NULL_CODE,
        }
    }

    /// The move with the given code, if there is one.
    pub open spec fn of_code(code: u16) -> Option<UciMove> {
        if code == NULL_CODE {
            Some(UciMove::Null)
        } else if code >= PUT_BASE {
            let role = (code - PUT_BASE) / 64;
            let to = (code - PUT_BASE) % 64;
            if 1 <= role <= 6 {
                Some(UciMove::Put { role: role as u8, to: to as u8 })
            } else {
                None
            }
        } else {
            let promotion = code / 4096;
            let to = (code % 4096) / 64;
            let from = code % 64;
            if promotion == 0 {
                Some(UciMove::Normal { from: from as u8, to: to as u8, promotion: None })
            } else if promotion <= 6 {
                Some(
                    UciMove::Normal {
                        from: from as u8,
                        to: to as u8,
                        promotion: Some(promotion as u8),
                    },
                )
            } else {
                None
            }
        }
    }

    /// The code of a move gives the move back.
    pub proof fn lemma_code_roundtrip(self)
        requires
            self.wf(),
        ensures
            UciMove::of_code(self.code()) == Some(self),
    {
    }

    /// A code that stands for a move is the code of that move, and the move
    /// is in range.
    pub proof fn lemma_of_code(code: u16)
        requires
            UciMove::of_code(code) is Some,
        ensures
            UciMove::of_code(code).unwrap().wf(),
            UciMove::of_code(code).unwrap().code() == code,
    {
    }

    /// Whether squares and roles are in range.
    pub fn is_valid(&self) -> (b: bool)
        ensures
            b == self.wf(),
    {
        match *self {
            UciMove::Normal { from, to, promotion } => from < 64 && to < 64 && match promotion {
                Some(role) => 1 <= role && role <= 6,
                None => true,
            },
            UciMove::Put { role, to } => 1 <= role && role <= 6 && to < 64,
            UciMove::Null => true,
        }
    }

    /// The code of the move.
    pub fn to_code(&self) -> (code: u16)
        requires
            self.wf(),
        ensures
            code == self.code(),
            UciMove::of_code(code) == Some(*self),
    {
        match *self {
            UciMove::Normal { from, to, promotion } => {
                let role: u16 = match promotion {
                    Some(role) => role as u16,
                    None => 0,
                };
                from as u16 + 64 * to as u16 + 4096 * role
            },
            UciMove::Put { role, to } => PUT_BASE + to as u16 + 64 * role as u16,
            UciMove::Null => NULL_CODE,
        }
    }

    /// The move with the given code.
    pub fn from_code(code: u16) -> (r: Option<UciMove>)
        ensures
            r == UciMove::of_code(code),
            r is Some ==> r.unwrap().wf() && r.unwrap().code() == code,
    {
        if code == NULL_CODE {
            Some(UciMove::Null)
        } else if code >= PUT_BASE {
            let role = (code - PUT_BASE) / 64;
            let to = (code - PUT_BASE) % 64;
            if 1 <= role && role <= 6 {
                Some(UciMove::Put { role: role as u8, to: to as u8 })
            } else {
                None
            }
        } else {
            let promotion = code / 4096;
            let to = (code % 4096) / 64;
            let from = code % 64;
            if promotion == 0 {
                Some(UciMove::Normal { from: from as u8, to: to as u8, promotion: None })
            } else if promotion <= 6 {
                Some(
                    UciMove::Normal {
                        from: from as u8,
                        to: to as u8,
                        promotion: Some(promotion as u8),
                    },
                )
            } else {
                None
            }
        }
    }

    /// Appends the two bytes of the code, high byte first.
    pub fn write(&self, out: &mut Vec<u8>)
        requires
            self.wf(),
        ensures
            final(out)@ == old(out)@ + code_encoding(self.code()),
    {
        let code = self.to_code();
        write_code(out, code);
    }

    /// Reads two bytes as the code of a move.
    pub fn read(reader: &mut Reader) -> (r: Result<UciMove, DecodeError>)
        ensures
            match r {
                Ok(uci) => uci.wf() && uci_decoding(old(reader)@) == Ok::<_, DecodeError>(
                    (uci, final(reader)@),
                ),
                Err(e) => uci_decoding(old(reader)@) == Err::<(UciMove, Seq<u8>), _>(e),
            },
    {
        let code = match read_code(reader) {
            Ok(code) => code,
            Err(e) => {
                return Err(e);
            },
        };
        match UciMove::from_code(code) {
            Some(uci) => Ok(uci),
            None => Err(DecodeError::InvalidData),
        }
    }
}

/// The two bytes of a code, high byte first.
pub open spec fn code_encoding(code: u16) -> Seq<u8> {
    seq![(code / 256) as u8, (code % 256) as u8]
}

/// The code at the front of `s` and the bytes that follow it.
pub open spec fn code_decoding(s: Seq<u8>) -> Result<(u16, Seq<u8>), DecodeError> {
    if s.len() < 2 {
        Err(DecodeError::UnexpectedEof)
    } else {
        Ok(((s[0] * 256 + s[1]) as u16, s.skip(2)))
    }
}

/// The move at the front of `s` and the bytes that follow it.
pub open spec fn uci_decoding(s: Seq<u8>) -> Result<(UciMove, Seq<u8>), DecodeError> {
    match code_decoding(s) {
        Err(e) => Err(e),
        Ok((code, rest)) => match UciMove::of_code(code) {
            Some(uci) => Ok((uci, rest)),
            None => Err(DecodeError::InvalidData),
        },
    }
}

/// A code is read back from its two bytes, whatever follows them.
pub proof fn lemma_code_roundtrip(code: u16, rest: Seq<u8>)
    ensures
        code_decoding(code_encoding(code) + rest) == Ok::<_, DecodeError>((code, rest)),
{
    let s = code_encoding(code) + rest;
    assert(s.skip(2) =~= rest);
}

/// A move is read back from its two bytes, whatever follows them.
pub proof fn lemma_uci_roundtrip(uci: UciMove, rest: Seq<u8>)
    requires
        uci.wf(),
    ensures
        uci_decoding(code_encoding(uci.code()) + rest) == Ok::<_, DecodeError>((uci, rest)),
{
    lemma_code_roundtrip(uci.code(), rest);
}

/// Appends the two bytes of a code, high byte first.
pub fn write_code(out: &mut Vec<u8>, code: u16)
    ensures
        final(out)@ == old(out)@ + code_encoding(code),
{
    out.push((code / 256) as u8);
    out.push((code % 256) as u8);
    proof {
        assert(out@ =~= old(out)@ + code_encoding(code));
    }
}

/// Reads two bytes as a code. On failure the reader stays where it was.
pub fn read_code(reader: &mut Reader) -> (r: Result<u16, DecodeError>)
    ensures
        match r {
            Ok(code) => code_decoding(old(reader)@) == Ok::<_, DecodeError>((code, final(reader)@)),
            Err(e) => code_decoding(old(reader)@) == Err::<(u16, Seq<u8>), _>(e) && final(reader)@
                == old(reader)@,
        },
{
    let bytes = match reader.read_exact(2) {
        Ok(bytes) => bytes,
        Err(e) => {
            return Err(e);
        },
    };
    Ok(bytes[0] as u16 * 256 + bytes[1] as u16)
}

} // verus!
