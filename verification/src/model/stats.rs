//! Result counters of the games behind a move.

use vstd::prelude::*;
use crate::model::basic::Color;
use crate::model::reader::{DecodeError, Reader};
use crate::model::uint::{
    lemma_uint_roundtrip, read_uint, uint_decoding, uint_encoding, write_uint,
};

verus! {

/// The sum of two counters, held at the largest value once it is reached.
pub open spec fn sat_add(a: u64, b: u64) -> u64 {
    if a + b > u64::MAX {
        u64::MAX
    } else {
        (a + b) as u64
    }
}

/// Saturating addition does not depend on the grouping or the order.
pub proof fn lemma_sat_add_laws(a: u64, b: u64, c: u64)
    ensures
        sat_add(sat_add(a, b), c) == sat_add(a, sat_add(b, c)),
        sat_add(a, b) == sat_add(b, a),
        sat_add(a, 0) == a,
{
}

/// How the games went that a move was played in, and the sum of the
/// ratings of those who played it.
#[derive(Clone, Copy, Debug, PartialEq, Eq, Structural, Hash)]
pub struct Stats {
    pub white: u64,
    pub draws: u64,
    pub black: u64,
    pub rating_sum: u64,
}

impl Stats {
    /// Counters of no game.
    pub open spec fn zero() -> Stats {
        Stats { white: 0, draws: 0, black: 0, rating_sum: 0 }
    }

    /// Counters of one game.
    pub open spec fn single(winner: Option<Color>, rating: u16) -> Stats {
        Stats {
            white: if winner == Some(Color::White) { 1 } else { 0 },
            draws: if winner is None { 1 } else { 0 },
            black: if winner == Some(Color::Black) { 1 } else { 0 },
            rating_sum: rating as u64,
        }
    }

    /// Counter by counter sum.
    pub open spec fn plus(self, other: Stats) -> Stats {
        Stats {
            white: sat_add(self.white, other.white),
            draws: sat_add(self.draws, other.draws),
            black: sat_add(self.black, other.black),
            rating_sum: sat_add(self.rating_sum, other.rating_sum),
        }
    }

    /// Number of games.
    pub open spec fn games(self) -> u64 {
        sat_add(sat_add(self.white, self.draws), self.black)
    }

    /// Summing counters does not depend on the grouping or the order, and
    /// the empty counters change nothing.
    pub proof fn lemma_plus_laws(a: Stats, b: Stats, c: Stats)
        ensures
            a.plus(b).plus(c) == a.plus(b.plus(c)),
            a.plus(b) == b.plus(a),
            a.plus(Stats::zero()) == a,
    {
    }

    /// Counters of no game.
    pub fn new() -> (stats: Stats)
        ensures
            stats == Stats::zero(),
    {
        Stats { white: 0, draws: 0, black: 0, rating_sum: 0 }
    }

    /// Counters of one game with the given winner, played by a player of
    /// the given rating.
    pub fn new_single(winner: Option<Color>, rating: u16) -> (stats: Stats)
        ensures
            stats == Stats::single(winner, rating),
            stats.games() == 1,
    {
        match winner {
            Some(Color::White) => Stats { white: 1, draws: 0, black: 0, rating_sum: rating as u64 },
            Some(Color::Black) => Stats { white: 0, draws: 0, black: 1, rating_sum: rating as u64 },
            None => Stats { white: 0, draws: 1, black: 0, rating_sum: rating as u64 },
        }
    }

    /// Counter by counter sum.
    pub fn combined(&self, other: &Stats) -> (sum: Stats)
        ensures
            sum == self.plus(*other),
    {
        Stats {
            white: self.white.saturating_add(other.white),
            draws: self.draws.saturating_add(other.draws),
            black: self.black.saturating_add(other.black),
            rating_sum: self.rating_sum.saturating_add(other.rating_sum),
        }
    }

    /// Number of games.
    pub fn total(&self) -> (n: u64)
        ensures
            n == self.games(),
    {
        self.white.saturating_add(self.draws).saturating_add(self.black)
    }

    /// Whether exactly one game stands behind the counters.
    pub fn is_single(&self) -> (b: bool)
        ensures
            b == (self.games() == 1),
    {
        self.total() == 1
    }

    /// Whether no game stands behind the counters.
    pub fn is_empty(&self) -> (b: bool)
        ensures
            b == (self.games() == 0),
    {
        self.total() == 0
    }

    /// The mean rating, rounded down; none without a game.
    pub fn average_rating(&self) -> (r: Option<u64>)
        ensures
            self.games() == 0 ==> r is None,
            self.games() > 0 ==> r == Some(self.rating_sum / self.games()),
    {
        let total = self.total();
        if total == 0 {
            None
        } else {
            Some(self.rating_sum / total)
        }
    }

    /// Appends the four counters.
    pub fn write(&self, out: &mut Vec<u8>)
        ensures
            final(out)@ == old(out)@ + stats_encoding(*self),
    {
        write_uint(out, self.white);
        write_uint(out, self.draws);
        write_uint(out, self.black);
        write_uint(out, self.rating_sum);
        proof {
            assert(out@ =~= old(out)@ + stats_encoding(*self));
        }
    }

    /// Reads four counters.
    pub fn read(reader: &mut Reader) -> (r: Result<Stats, DecodeError>)
        ensures
            match r {
                Ok(stats) => stats_decoding(old(reader)@) == Ok::<_, DecodeError>(
                    (stats, final(reader)@),
                ),
                Err(e) => stats_decoding(old(reader)@) == Err::<(Stats, Seq<u8>), _>(e),
            },
    {
        let white = match read_uint(reader) {
            Ok(n) => n,
            Err(e) => {
                return Err(e);
            },
        };
        let draws = match read_uint(reader) {
            Ok(n) => n,
            Err(e) => {
                return Err(e);
            },
        };
        let black = match read_uint(reader) {
            Ok(n) => n,
            Err(e) => {
                return Err(e);
            },
        };
        let rating_sum = match read_uint(reader) {
            Ok(n) => n,
            Err(e) => {
                return Err(e);
            },
        };
        Ok(Stats { white, draws, black, rating_sum })
    }
}

/// The bytes of the four counters.
pub open spec fn stats_encoding(stats: Stats) -> Seq<u8> {
    uint_encoding(stats.white as nat) + uint_encoding(stats.draws as nat) + uint_encoding(
        stats.black as nat,
    ) + uint_encoding(stats.rating_sum as nat)
}

/// The counters at the front of `s` and the bytes that follow them.
pub open spec fn stats_decoding(s: Seq<u8>) -> Result<(Stats, Seq<u8>), DecodeError> {
    match uint_decoding(s) {
        Err(e) => Err(e),
        Ok((white, s1)) => match uint_decoding(s1) {
            Err(e) => Err(e),
            Ok((draws, s2)) => match uint_decoding(s2) {
                Err(e) => Err(e),
                Ok((black, s3)) => match uint_decoding(s3) {
                    Err(e) => Err(e),
                    Ok((rating_sum, s4)) => Ok(
                        (
                            Stats {
                                white: white as u64,
                                draws: draws as u64,
                                black: black as u64,
                                rating_sum: rating_sum as u64,
                            },
                            s4,
                        ),
                    ),
                },
            },
        },
    }
}

/// Counters are read back from their bytes, whatever follows them.
pub proof fn lemma_stats_roundtrip(stats: Stats, rest: Seq<u8>)
    ensures
        stats_decoding(stats_encoding(stats) + rest) == Ok::<_, DecodeError>((stats, rest)),
{
    let e1 = uint_encoding(stats.white as nat);
    let e2 = uint_encoding(stats.draws as nat);
    let e3 = uint_encoding(stats.black as nat);
    let e4 = uint_encoding(stats.rating_sum as nat);
    let s = stats_encoding(stats) + rest;
    assert(s =~= e1 + (e2 + e3 + e4 + rest));
    lemma_uint_roundtrip(stats.white, e2 + e3 + e4 + rest);
    assert(e2 + e3 + e4 + rest =~= e2 + (e3 + e4 + rest));
    lemma_uint_roundtrip(stats.draws, e3 + e4 + rest);
    assert(e3 + e4 + rest =~= e3 + (e4 + rest));
    lemma_uint_roundtrip(stats.black, e4 + rest);
    lemma_uint_roundtrip(stats.rating_sum, rest);
}

} // verus!
