//! What is kept of a game of the player corpus.

use vstd::prelude::*;
use vstd::slice::slice_to_vec;
use crate::model::basic::{
    winner_byte, winner_from_byte, winner_of_byte, winner_to_byte, Color, Mode, Speed,
};
use crate::model::endian::append_bytes;
use crate::model::list::Decoded;
use crate::model::reader::{DecodeError, Reader};
use crate::model::uint::{lemma_uint_roundtrip, read_uint, uint_decoding, uint_encoding, write_uint};

verus! {

/// A string of bytes behind its length.
pub open spec fn bytes_encoding(bytes: Seq<u8>) -> Seq<u8> {
    uint_encoding(bytes.len()) + bytes
}

/// The string at the front of `s`, and the bytes behind it.
pub open spec fn bytes_decoding(s: Seq<u8>) -> Decoded<Seq<u8>> {
    match uint_decoding(s) {
        Err(e) => Err(e),
        Ok((n, rest)) => if rest.len() < n {
            Err(DecodeError::UnexpectedEof)
        } else {
            Ok((rest.take(n as int), rest.skip(n as int)))
        },
    }
}

/// A string is read back from its bytes, whatever follows them.
pub proof fn lemma_bytes_roundtrip(bytes: Seq<u8>, rest: Seq<u8>)
    requires
        bytes.len() <= u64::MAX,
    ensures
        bytes_decoding(bytes_encoding(bytes) + rest) == Ok::<_, DecodeError>((bytes, rest)),
{
    let after = bytes + rest;
    assert(bytes_encoding(bytes) + rest =~= uint_encoding(bytes.len()) + after);
    lemma_uint_roundtrip(bytes.len() as u64, after);
    assert(after.take(bytes.len() as int) =~= bytes);
    assert(after.skip(bytes.len() as int) =~= rest);
}

/// Appends a string behind its length.
pub fn write_bytes(out: &mut Vec<u8>, bytes: &[u8])
    ensures
        final(out)@ == old(out)@ + bytes_encoding(bytes@),
{
    write_uint(out, bytes.len() as u64);
    append_bytes(out, bytes);
    proof {
        assert(out@ =~= old(out)@ + bytes_encoding(bytes@));
    }
}

/// Reads a string behind its length.
pub fn read_bytes(reader: &mut Reader) -> (r: Result<Vec<u8>, DecodeError>)
    ensures
        match r {
            Ok(bytes) => bytes_decoding(old(reader)@) == Ok::<_, DecodeError>(
                (bytes@, final(reader)@),
            ),
            Err(e) => bytes_decoding(old(reader)@) == Err::<(Seq<u8>, Seq<u8>), _>(e),
        },
{
    let n = match read_uint(reader) {
        Ok(n) => n,
        Err(e) => {
            return Err(e);
        },
    };
    if n > reader.remaining() as u64 {
        return Err(DecodeError::UnexpectedEof);
    }
    let bytes = match reader.read_exact(n as usize) {
        Ok(bytes) => bytes,
        Err(e) => {
            return Err(e);
        },
    };
    Ok(slice_to_vec(bytes))
}

/// A player of a game.
#[derive(Debug)]
pub struct Player {
    pub name: Vec<u8>,
    pub rating: u16,
}

/// A game as a value.
pub struct GameInfoView {
    pub white_name: Seq<u8>,
    pub white_rating: u16,
    pub black_name: Seq<u8>,
    pub black_rating: u16,
    pub winner: Option<Color>,
    pub year: u16,
    pub month: u8,
    pub event: Seq<u8>,
    pub speed: Speed,
    pub mode: Mode,
    pub indexed_white: bool,
    pub indexed_black: bool,
}

/// What is kept of a game: the players, the result, the month, the event,
/// the speed and the mode, and for which of the two players the moves of
/// the game have been counted.
#[derive(Debug)]
pub struct GameInfo {
    pub white: Player,
    pub black: Player,
    pub winner: Option<Color>,
    pub year: u16,
    pub month: u8,
    pub event: Vec<u8>,
    pub speed: Speed,
    pub mode: Mode,
    pub indexed_white: bool,
    pub indexed_black: bool,
}

impl View for GameInfo {
    type V = GameInfoView;

    open spec fn view(&self) -> GameInfoView {
        GameInfoView {
            white_name: self.white.name@,
            white_rating: self.white.rating,
            black_name: self.black.name@,
            black_rating: self.black.rating,
            winner: self.winner,
            year: self.year,
            month: self.month,
            event: self.event@,
            speed: self.speed,
            mode: self.mode,
            indexed_white: self.indexed_white,
            indexed_black: self.indexed_black,
        }
    }
}

/// The byte that says for whom a game has been counted.
pub open spec fn indexed_byte(white: bool, black: bool) -> u8 {
    ((if white { 1int } else { 0int }) + (if black { 2int } else { 0int })) as u8
}

impl GameInfoView {
    /// A later record of a game folded onto an earlier one: the later record
    /// with the marks of both.
    pub open spec fn merged(self, newer: GameInfoView) -> GameInfoView {
        GameInfoView {
            indexed_white: self.indexed_white || newer.indexed_white,
            indexed_black: self.indexed_black || newer.indexed_black,
            ..newer
        }
    }

    /// The records of a game folded together in their order: none for no
    /// record.
    pub open spec fn fold(infos: Seq<GameInfoView>) -> Option<GameInfoView>
        decreases infos.len(),
    {
        if infos.len() == 0 {
            None
        } else {
            match GameInfoView::fold(infos.drop_last()) {
                None => Some(infos.last()),
                Some(older) => Some(older.merged(infos.last())),
            }
        }
    }

    /// The bytes of a record.
    pub open spec fn encoding(self) -> Seq<u8> {
        seq![
            winner_byte(self.winner),
            self.speed.byte(),
            self.mode.byte(),
            indexed_byte(self.indexed_white, self.indexed_black),
            self.month,
        ] + uint_encoding(self.year as nat) + uint_encoding(self.white_rating as nat)
            + uint_encoding(self.black_rating as nat) + bytes_encoding(self.white_name)
            + bytes_encoding(self.black_name) + bytes_encoding(self.event)
    }

    /// The lengths of the strings fit the width of a length.
    pub open spec fn wf(self) -> bool {
        self.white_name.len() <= u64::MAX && self.black_name.len() <= u64::MAX && self.event.len()
            <= u64::MAX
    }
}

/// Folding records does not depend on the grouping.
pub proof fn lemma_info_merge_associative(a: GameInfoView, b: GameInfoView, c: GameInfoView)
    ensures
        a.merged(b).merged(c) == a.merged(b.merged(c)),
{
}

/// Folding does not depend on where the engine stores a fold in between:
/// the fold of the first records, folded with the others, is the fold of
/// all the records.
pub proof fn lemma_info_fold_regrouping(first: Seq<GameInfoView>, rest: Seq<GameInfoView>)
    requires
        first.len() > 0,
    ensures
        GameInfoView::fold(first) is Some,
        GameInfoView::fold(seq![GameInfoView::fold(first).unwrap()] + rest) == GameInfoView::fold(
            first + rest,
        ),
    decreases rest.len(),
{
    lemma_fold_indexed(first);
    let head = GameInfoView::fold(first).unwrap();
    if rest.len() == 0 {
        assert(first + rest =~= first);
        let one = seq![head] + rest;
        assert(one.drop_last() =~= Seq::<GameInfoView>::empty());
        assert(one.last() == head);
        assert(GameInfoView::fold(one.drop_last()) is None);
    } else {
        let mid = seq![head] + rest;
        let all = first + rest;
        assert(mid.drop_last() =~= seq![head] + rest.drop_last());
        assert(all.drop_last() =~= first + rest.drop_last());
        assert(mid.last() == rest.last() && all.last() == rest.last());
        lemma_info_fold_regrouping(first, rest.drop_last());
    }
}

/// The fold of the records of a game is the last record, marked as counted
/// for a player exactly if one of the records is.
pub proof fn lemma_fold_indexed(infos: Seq<GameInfoView>)
    requires
        infos.len() > 0,
    ensures
        GameInfoView::fold(infos) is Some,
        GameInfoView::fold(infos).unwrap().indexed_white == exists|i: int|
            0 <= i < infos.len() && infos[i].indexed_white,
        GameInfoView::fold(infos).unwrap().indexed_black == exists|i: int|
            0 <= i < infos.len() && infos[i].indexed_black,
        GameInfoView::fold(infos).unwrap() == (GameInfoView {
            indexed_white: GameInfoView::fold(infos).unwrap().indexed_white,
            indexed_black: GameInfoView::fold(infos).unwrap().indexed_black,
            ..infos.last()
        }),
    decreases infos.len(),
{
    let init = infos.drop_last();
    let last = infos.last();
    if init.len() == 0 {
        if exists|i: int| 0 <= i < infos.len() && infos[i].indexed_white {
            let i = choose|i: int| 0 <= i < infos.len() && infos[i].indexed_white;
            assert(i == infos.len() - 1);
        }
        if exists|i: int| 0 <= i < infos.len() && infos[i].indexed_black {
            let i = choose|i: int| 0 <= i < infos.len() && infos[i].indexed_black;
            assert(i == infos.len() - 1);
        }
        if last.indexed_white {
            assert(infos[infos.len() - 1].indexed_white);
        }
        if last.indexed_black {
            assert(infos[infos.len() - 1].indexed_black);
        }
    } else {
        lemma_fold_indexed(init);
        let older = GameInfoView::fold(init).unwrap();
        if exists|i: int| 0 <= i < infos.len() && infos[i].indexed_white {
            let i = choose|i: int| 0 <= i < infos.len() && infos[i].indexed_white;
            if i < init.len() {
                assert(init[i].indexed_white);
            }
        }
        if older.indexed_white {
            let i = choose|i: int| 0 <= i < init.len() && init[i].indexed_white;
            assert(infos[i].indexed_white);
        }
        if last.indexed_white {
            assert(infos[infos.len() - 1].indexed_white);
        }
        if exists|i: int| 0 <= i < infos.len() && infos[i].indexed_black {
            let i = choose|i: int| 0 <= i < infos.len() && infos[i].indexed_black;
            if i < init.len() {
                assert(init[i].indexed_black);
            }
        }
        if older.indexed_black {
            let i = choose|i: int| 0 <= i < init.len() && init[i].indexed_black;
            assert(infos[i].indexed_black);
        }
        if last.indexed_black {
            assert(infos[infos.len() - 1].indexed_black);
        }
    }
}

/// The year and the two ratings at the front of `s`, and the bytes behind.
#[verifier::opaque]
pub open spec fn numbers_decoding(s: Seq<u8>) -> Decoded<(u16, u16, u16)> {
    match uint_decoding(s) {
        Err(e) => Err(e),
        Ok((year, s1)) => match uint_decoding(s1) {
            Err(e) => Err(e),
            Ok((white_rating, s2)) => match uint_decoding(s2) {
                Err(e) => Err(e),
                Ok((black_rating, s3)) => if year > u16::MAX || white_rating > u16::MAX
                    || black_rating > u16::MAX {
                    Err(DecodeError::InvalidData)
                } else {
                    Ok(((year as u16, white_rating as u16, black_rating as u16), s3))
                },
            },
        },
    }
}

/// The two names and the event at the front of `s`, and the bytes behind.
#[verifier::opaque]
pub open spec fn names_decoding(s: Seq<u8>) -> Decoded<(Seq<u8>, Seq<u8>, Seq<u8>)> {
    match bytes_decoding(s) {
        Err(e) => Err(e),
        Ok((white_name, s1)) => match bytes_decoding(s1) {
            Err(e) => Err(e),
            Ok((black_name, s2)) => match bytes_decoding(s2) {
                Err(e) => Err(e),
                Ok((event, s3)) => Ok(((white_name, black_name, event), s3)),
            },
        },
    }
}

/// The record at the front of `s`, and the bytes behind it.
pub open spec fn info_decoding(s: Seq<u8>) -> Decoded<GameInfoView> {
    if s.len() < 5 {
        Err(DecodeError::UnexpectedEof)
    } else if winner_of_byte(s[0]) is None || Speed::of_byte(s[1]) is None || Mode::of_byte(s[2])
        is None || s[3] > 3 {
        Err(DecodeError::InvalidData)
    } else {
        match numbers_decoding(s.skip(5)) {
            Err(e) => Err(e),
            Ok((numbers, s1)) => match names_decoding(s1) {
                Err(e) => Err(e),
                Ok((names, s2)) => Ok(
                    (
                        GameInfoView {
                            white_name: names.0,
                            white_rating: numbers.1,
                            black_name: names.1,
                            black_rating: numbers.2,
                            winner: winner_of_byte(s[0]).unwrap(),
                            year: numbers.0,
                            month: s[4],
                            event: names.2,
                            speed: Speed::of_byte(s[1]).unwrap(),
                            mode: Mode::of_byte(s[2]).unwrap(),
                            indexed_white: s[3] % 2 == 1,
                            indexed_black: s[3] >= 2,
                        },
                        s2,
                    ),
                ),
            },
        }
    }
}

/// The record that the whole of `s` encodes.
pub open spec fn info_from_bytes(s: Seq<u8>) -> Result<GameInfoView, DecodeError> {
    match info_decoding(s) {
        Err(e) => Err(e),
        Ok((v, rest)) => if rest.len() == 0 {
            Ok(v)
        } else {
            Err(DecodeError::InvalidData)
        },
    }
}

proof fn lemma_numbers_roundtrip(year: u16, white: u16, black: u16, rest: Seq<u8>)
    ensures
        numbers_decoding(
            uint_encoding(year as nat) + uint_encoding(white as nat) + uint_encoding(black as nat)
                + rest,
        ) == Ok::<_, DecodeError>(((year, white, black), rest)),
{
    reveal(numbers_decoding);
    let e1 = uint_encoding(year as nat);
    let e2 = uint_encoding(white as nat);
    let e3 = uint_encoding(black as nat);
    assert(e1 + e2 + e3 + rest =~= e1 + (e2 + (e3 + rest)));
    lemma_uint_roundtrip(year as u64, e2 + (e3 + rest));
    lemma_uint_roundtrip(white as u64, e3 + rest);
    lemma_uint_roundtrip(black as u64, rest);
}

proof fn lemma_names_roundtrip(white: Seq<u8>, black: Seq<u8>, event: Seq<u8>, rest: Seq<u8>)
    requires
        white.len() <= u64::MAX,
        black.len() <= u64::MAX,
        event.len() <= u64::MAX,
    ensures
        names_decoding(bytes_encoding(white) + bytes_encoding(black) + bytes_encoding(event) + rest)
            == Ok::<_, DecodeError>(((white, black, event), rest)),
{
    reveal(names_decoding);
    let e1 = bytes_encoding(white);
    let e2 = bytes_encoding(black);
    let e3 = bytes_encoding(event);
    assert(e1 + e2 + e3 + rest =~= e1 + (e2 + (e3 + rest)));
    lemma_bytes_roundtrip(white, e2 + (e3 + rest));
    lemma_bytes_roundtrip(black, e3 + rest);
    lemma_bytes_roundtrip(event, rest);
}

/// A record is read back from its bytes, whatever follows them.
#[verifier::rlimit(50)]
pub proof fn lemma_info_roundtrip(v: GameInfoView, rest: Seq<u8>)
    requires
        v.wf(),
    ensures
        info_decoding(v.encoding() + rest) == Ok::<_, DecodeError>((v, rest)),
{
    let head = seq![
        winner_byte(v.winner),
        v.speed.byte(),
        v.mode.byte(),
        indexed_byte(v.indexed_white, v.indexed_black),
        v.month,
    ];
    let numbers = uint_encoding(v.year as nat) + uint_encoding(v.white_rating as nat)
        + uint_encoding(v.black_rating as nat);
    let names = bytes_encoding(v.white_name) + bytes_encoding(v.black_name) + bytes_encoding(
        v.event,
    );
    let s = v.encoding() + rest;
    assert(s =~= head + (numbers + (names + rest)));
    assert(s.skip(5) =~= numbers + (names + rest));
    lemma_numbers_roundtrip(v.year, v.white_rating, v.black_rating, names + rest);
    lemma_names_roundtrip(v.white_name, v.black_name, v.event, rest);
    assert(s[0] == head[0] && s[1] == head[1] && s[2] == head[2] && s[3] == head[3] && s[4]
        == head[4]);
    assert(numbers_decoding(s.skip(5)) == Ok::<_, DecodeError>(
        ((v.year, v.white_rating, v.black_rating), names + rest),
    ));
    assert(names_decoding(names + rest) == Ok::<_, DecodeError>(
        ((v.white_name, v.black_name, v.event), rest),
    ));
}

impl GameInfo {
    /// A copy of the record.
    pub fn duplicate(&self) -> (info: GameInfo)
        ensures
            info@ == self@,
    {
        GameInfo {
            white: Player { name: slice_to_vec(self.white.name.as_slice()), rating: self.white.rating },
            black: Player { name: slice_to_vec(self.black.name.as_slice()), rating: self.black.rating },
            winner: self.winner,
            year: self.year,
            month: self.month,
            event: slice_to_vec(self.event.as_slice()),
            speed: self.speed,
            mode: self.mode,
            indexed_white: self.indexed_white,
            indexed_black: self.indexed_black,
        }
    }

    /// Folds this record, the later one, onto an earlier record of the same
    /// game: it keeps its own fields and takes over the marks of the earlier
    /// record.
    pub fn merge_onto(&mut self, older: &GameInfo)
        ensures
            final(self)@ == older@.merged(old(self)@),
    {
        self.indexed_white = self.indexed_white || older.indexed_white;
        self.indexed_black = self.indexed_black || older.indexed_black;
    }

    /// Appends the bytes of the record.
    pub fn write(&self, out: &mut Vec<u8>)
        ensures
            final(out)@ == old(out)@ + self@.encoding(),
    {
        out.push(winner_to_byte(self.winner));
        out.push(self.speed.to_byte());
        out.push(self.mode.to_byte());
        let white: u8 = if self.indexed_white {
            1
        } else {
            0
        };
        let black: u8 = if self.indexed_black {
            2
        } else {
            0
        };
        out.push(white + black);
        out.push(self.month);
        write_uint(out, self.year as u64);
        write_uint(out, self.white.rating as u64);
        write_uint(out, self.black.rating as u64);
        write_bytes(out, self.white.name.as_slice());
        write_bytes(out, self.black.name.as_slice());
        write_bytes(out, self.event.as_slice());
        proof {
            assert(out@ =~= old(out)@ + self@.encoding());
        }
    }

    /// The bytes of the record.
    pub fn to_bytes(&self) -> (bytes: Vec<u8>)
        ensures
            bytes@ == self@.encoding(),
    {
        let mut bytes: Vec<u8> = Vec::new();
        self.write(&mut bytes);
        proof {
            assert(Seq::<u8>::empty() + self@.encoding() =~= self@.encoding());
        }
        bytes
    }

    /// Reads a record from the front of the reader.
    pub fn read(reader: &mut Reader) -> (r: Result<GameInfo, DecodeError>)
        ensures
            match r {
                Ok(info) => info_decoding(old(reader)@) == Ok::<_, DecodeError>(
                    (info@, final(reader)@),
                ),
                Err(e) => info_decoding(old(reader)@) == Err::<(GameInfoView, Seq<u8>), _>(e),
            },
    {
        proof {
            reveal(numbers_decoding);
            reveal(names_decoding);
        }
        let head = match reader.read_exact(5) {
            Ok(head) => head,
            Err(e) => {
                return Err(e);
            },
        };
        let winner = match winner_from_byte(head[0]) {
            Some(winner) => winner,
            None => {
                return Err(DecodeError::InvalidData);
            },
        };
        let speed = match Speed::from_byte(head[1]) {
            Some(speed) => speed,
            None => {
                return Err(DecodeError::InvalidData);
            },
        };
        let mode = match Mode::from_byte(head[2]) {
            Some(mode) => mode,
            None => {
                return Err(DecodeError::InvalidData);
            },
        };
        if head[3] > 3 {
            return Err(DecodeError::InvalidData);
        }
        let indexed_white = head[3] % 2 == 1;
        let indexed_black = head[3] >= 2;
        let month = head[4];
        let year = match read_uint(reader) {
            Ok(n) => n,
            Err(e) => {
                return Err(e);
            },
        };
        let white_rating = match read_uint(reader) {
            Ok(n) => n,
            Err(e) => {
                return Err(e);
            },
        };
        let black_rating = match read_uint(reader) {
            Ok(n) => n,
            Err(e) => {
                return Err(e);
            },
        };
        if year > 65535 || white_rating > 65535 || black_rating > 65535 {
            return Err(DecodeError::InvalidData);
        }
        let white_name = match read_bytes(reader) {
            Ok(bytes) => bytes,
            Err(e) => {
                return Err(e);
            },
        };
        let black_name = match read_bytes(reader) {
            Ok(bytes) => bytes,
            Err(e) => {
                return Err(e);
            },
        };
        let event = match read_bytes(reader) {
            Ok(bytes) => bytes,
            Err(e) => {
                return Err(e);
            },
        };
        Ok(
            GameInfo {
                white: Player { name: white_name, rating: white_rating as u16 },
                black: Player { name: black_name, rating: black_rating as u16 },
                winner,
                year: year as u16,
                month,
                event,
                speed,
                mode,
                indexed_white,
                indexed_black,
            },
        )
    }

    /// Reads a record from bytes that hold nothing else.
    pub fn from_bytes(bytes: &[u8]) -> (r: Result<GameInfo, DecodeError>)
        ensures
            match r {
                Ok(info) => info_from_bytes(bytes@) == Ok::<_, DecodeError>(info@),
                Err(e) => info_from_bytes(bytes@) == Err::<GameInfoView, _>(e),
            },
    {
        let mut reader = Reader::new(bytes);
        let info = match GameInfo::read(&mut reader) {
            Ok(info) => info,
            Err(e) => {
                return Err(e);
            },
        };
        if reader.is_empty() {
            Ok(info)
        } else {
            Err(DecodeError::InvalidData)
        }
    }
}

} // verus!
