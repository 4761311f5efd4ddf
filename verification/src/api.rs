//! What a query answers: the moves of an entry that are legal in the
//! position, the most played first, and the games to show with them.

use vstd::prelude::*;
use vstd::slice::slice_to_vec;
use crate::model::game_id::GameId;
use crate::model::keyset::{largest, KeySet};
use crate::model::master::{valid_master_rank, MasterEntry};
use crate::model::personal::{recent_rank, PersonalEntry};
use crate::model::stats::Stats;
use crate::model::top::{is_top, lemma_largest_is_top};
use crate::model::uci::UciMove;

verus! {

/// Why a request was not served.
#[derive(Clone, Copy, Debug, PartialEq, Eq, Structural)]
pub enum Error {
    /// The position cannot be set up, or a move of the line is illegal.
    InvalidPosition,
    /// The players of the game are rated too low on average.
    RejectedImport(GameId),
    /// The game, or a game that ends in the same position, is stored.
    DuplicateGame(GameId),
    /// No such game or property.
    NotFound,
    /// The store failed.
    Internal,
}

impl Error {
    /// The status that answers a request that failed this way.
    pub open spec fn status_code(self) -> u16 {
        match self {
            Error::InvalidPosition => 400,
            Error::RejectedImport(_) => 400,
            Error::DuplicateGame(_) => 400,
            Error::NotFound => 404,
            Error::Internal => 500,
        }
    }

    /// The status that answers a request that failed this way.
    pub fn status(&self) -> (code: u16)
        ensures
            code == self.status_code(),
            400 <= code < 600,
    {
        match self {
            Error::InvalidPosition => 400,
            Error::RejectedImport(_) => 400,
            Error::DuplicateGame(_) => 400,
            Error::NotFound => 404,
            Error::Internal => 500,
        }
    }
}

/// How many moves an answer holds where the query names no limit.
pub const DEFAULT_MOVES: usize = 12;

/// How many top games an answer holds at most, whatever the query asks.
pub const MAX_TOP_GAMES: usize = 15;

/// The limits of a query.
#[derive(Clone, Copy, Debug)]
pub struct Limits {
    pub moves: Option<usize>,
    pub recent_games: usize,
    pub top_games: usize,
}

impl Limits {
    /// How many moves the answer holds at most.
    pub fn move_limit(&self) -> (n: usize)
        ensures
            n == match self.moves {
                Some(n) => n,
                None => DEFAULT_MOVES,
            },
    {
        match self.moves {
            Some(n) => n,
            None => DEFAULT_MOVES,
        }
    }

    /// How many top games the answer holds at most.
    pub fn top_limit(&self) -> (n: usize)
        ensures
            n == if self.top_games < MAX_TOP_GAMES {
                self.top_games
            } else {
                MAX_TOP_GAMES
            },
    {
        if self.top_games < MAX_TOP_GAMES {
            self.top_games
        } else {
            MAX_TOP_GAMES
        }
    }
}

/// A move that is legal in the position of the query, and how it is
/// written in that position.
#[derive(Debug)]
pub struct LegalMove {
    pub uci: UciMove,
    pub san: Vec<u8>,
}

/// A move of an answer.
#[derive(Debug)]
pub struct MoveRow {
    pub uci: UciMove,
    pub san: Vec<u8>,
    pub stats: Stats,
}

/// Whether the move with the given code is among the legal moves.
pub open spec fn is_legal(legal: Seq<LegalMove>, code: u16) -> bool {
    exists|i: int| 0 <= i < legal.len() && (#[trigger] legal[i]).uci.code() == code
}

/// The first index at which the move with the given code stands among the
/// legal moves.
pub open spec fn first_legal(legal: Seq<LegalMove>, code: u16, i: int) -> bool {
    &&& 0 <= i < legal.len()
    &&& legal[i].uci.code() == code
    &&& forall|j: int| 0 <= j < i ==> (#[trigger] legal[j]).uci.code() != code
}

/// The place of a move in an answer: more games first, and among moves of
/// as many games the lower code first.
pub open spec fn move_rank(stats: Stats, code: u16) -> u128 {
    (stats.games() * 65536 + (65535 - code)) as u128
}

/// The moves are well formed and no move stands twice.
pub open spec fn distinct_moves(moves: Seq<(UciMove, Stats)>) -> bool {
    &&& forall|i: int| 0 <= i < moves.len() ==> (#[trigger] moves[i]).0.wf()
    &&& forall|i: int, j: int|
        0 <= i < j < moves.len() ==> (#[trigger] moves[i]).0.code() != (#[trigger] moves[j]).0.code()
}

/// The ranks of the moves that are legal.
pub open spec fn legal_ranks(moves: Seq<(UciMove, Stats)>, legal: Seq<LegalMove>) -> Set<u128> {
    Set::new(
        |r: u128|
            exists|i: int|
                0 <= i < moves.len() && is_legal(legal, (#[trigger] moves[i]).0.code()) && r
                    == move_rank(moves[i].1, moves[i].0.code()),
    )
}

/// The ranks of the rows of an answer, in their order.
pub open spec fn row_ranks(rows: Seq<MoveRow>) -> Seq<u128> {
    Seq::new(rows.len(), |j: int| move_rank(rows[j].stats, rows[j].uci.code()))
}

/// The sum of the counters of the moves that are legal.
pub open spec fn legal_total(moves: Seq<(UciMove, Stats)>, legal: Seq<LegalMove>) -> Stats
    decreases moves.len(),
{
    if moves.len() == 0 {
        Stats::zero()
    } else {
        let rest = legal_total(moves.drop_last(), legal);
        if is_legal(legal, moves.last().0.code()) {
            rest.plus(moves.last().1)
        } else {
            rest
        }
    }
}

/// Whether a row of an answer is a move of the entry with its counters, and
/// is written as the first legal move of that code is.
pub open spec fn row_from(row: MoveRow, moves: Seq<(UciMove, Stats)>, legal: Seq<LegalMove>) -> bool {
    &&& exists|i: int| 0 <= i < moves.len() && #[trigger] moves[i] == (row.uci, row.stats)
    &&& exists|i: int|
        #[trigger] first_legal(legal, row.uci.code(), i) && row.san@ == legal[i].san@
}

/// The index of a move among the legal moves.
pub fn find_legal(legal: &Vec<LegalMove>, uci: UciMove) -> (r: Option<usize>)
    requires
        uci.wf(),
        forall|i: int| 0 <= i < legal@.len() ==> (#[trigger] legal@[i]).uci.wf(),
    ensures
        match r {
            Some(i) => first_legal(legal@, uci.code(), i as int),
            None => !is_legal(legal@, uci.code()),
        },
{
    let code = uci.to_code();
    let mut i: usize = 0;
    while i < legal.len()
        invariant
            i <= legal@.len(),
            code == uci.code(),
            forall|i: int| 0 <= i < legal@.len() ==> (#[trigger] legal@[i]).uci.wf(),
            forall|j: int| 0 <= j < i ==> (#[trigger] legal@[j]).uci.code() != code,
        decreases legal@.len() - i,
    {
        if legal[i].uci.to_code() == code {
            return Some(i);
        }
        i = i + 1;
    }
    None
}

/// The sum of the counters of the moves that are legal: the total of an
/// answer.
pub fn total_of(moves: &Vec<(UciMove, Stats)>, legal: &Vec<LegalMove>) -> (total: Stats)
    requires
        distinct_moves(moves@),
        forall|i: int| 0 <= i < legal@.len() ==> (#[trigger] legal@[i]).uci.wf(),
    ensures
        total == legal_total(moves@, legal@),
{
    let mut total = Stats::new();
    let mut i: usize = 0;
    proof {
        assert(moves@.take(0) =~= Seq::empty());
    }
    while i < moves.len()
        invariant
            i <= moves@.len(),
            distinct_moves(moves@),
            forall|i: int| 0 <= i < legal@.len() ==> (#[trigger] legal@[i]).uci.wf(),
            total == legal_total(moves@.take(i as int), legal@),
        decreases moves@.len() - i,
    {
        proof {
            assert(moves@[i as int].0.wf());
            let t1 = moves@.take(i + 1);
            assert(t1.drop_last() =~= moves@.take(i as int));
            assert(t1.last() == moves@[i as int]);
        }
        let (uci, stats) = moves[i];
        match find_legal(legal, uci) {
            Some(_) => {
                total = total.combined(&stats);
            },
            None => {},
        }
        i = i + 1;
    }
    proof {
        assert(moves@.take(moves@.len() as int) =~= moves@);
    }
    total
}

/// The rows of an answer: the moves that are legal in the position, the
/// most played first, no more than `limit`.
#[verifier::rlimit(50)]
pub fn sorted_moves(moves: &Vec<(UciMove, Stats)>, legal: &Vec<LegalMove>, limit: usize) -> (rows: Vec<
    MoveRow,
>)
    requires
        distinct_moves(moves@),
        forall|i: int| 0 <= i < legal@.len() ==> (#[trigger] legal@[i]).uci.wf(),
    ensures
        rows@.len() <= limit,
        is_top(row_ranks(rows@).reverse(), legal_ranks(moves@, legal@), limit as nat),
        forall|j: int| 0 <= j < rows@.len() ==> row_from(#[trigger] rows@[j], moves@, legal@),
{
    let mut ranks = KeySet::new();
    let mut i: usize = 0;
    while i < moves.len()
        invariant
            i <= moves@.len(),
            distinct_moves(moves@),
            forall|i: int| 0 <= i < legal@.len() ==> (#[trigger] legal@[i]).uci.wf(),
            ranks.wf(),
            forall|x: u128| #[trigger]
                ranks@.contains(x) <==> legal_ranks(moves@.take(i as int), legal@).contains(x),
        decreases moves@.len() - i,
    {
        proof {
            assert(moves@[i as int].0.wf());
        }
        let (uci, stats) = moves[i];
        let ghost before = ranks@;
        let found = find_legal(legal, uci);
        let rank: u128 = stats.total() as u128 * 65536 + (65535 - uci.to_code()) as u128;
        match found {
            Some(_) => {
                ranks.insert(rank);
            },
            None => {},
        }
        proof {
            let t0 = moves@.take(i as int);
            let t1 = moves@.take(i + 1);
            assert(rank == move_rank(stats, uci.code()));
            assert forall|x: u128| #[trigger]
                ranks@.contains(x) <==> legal_ranks(t1, legal@).contains(x) by {
                assert(before.contains(x) <==> legal_ranks(t0, legal@).contains(x));
                if legal_ranks(t0, legal@).contains(x) {
                    let m = choose|m: int|
                        0 <= m < t0.len() && is_legal(legal@, (#[trigger] t0[m]).0.code()) && x
                            == move_rank(t0[m].1, t0[m].0.code());
                    assert(t1[m] == t0[m]);
                }
                if found is Some && x == rank {
                    assert(t1[i as int] == (uci, stats));
                }
                if legal_ranks(t1, legal@).contains(x) {
                    let m = choose|m: int|
                        0 <= m < t1.len() && is_legal(legal@, (#[trigger] t1[m]).0.code()) && x
                            == move_rank(t1[m].1, t1[m].0.code());
                    if m < i {
                        assert(t0[m] == t1[m]);
                    }
                }
            }
        }
        i = i + 1;
    }
    proof {
        assert(moves@.take(moves@.len() as int) =~= moves@);
        lemma_largest_is_top(ranks@, limit as nat);
        assert(Set::new(|x: u128| ranks@.contains(x)) =~= legal_ranks(moves@, legal@));
        crate::model::keyset::lemma_largest(ranks@, limit as nat);
    }
    let top = ranks.top(limit);
    let ghost kept = largest(ranks@, limit as nat);
    let mut rows: Vec<MoveRow> = Vec::new();
    let mut j: usize = 0;
    proof {
        assert(row_ranks(rows@) =~= top@.take(0));
    }
    while j < top.len()
        invariant
            j <= top@.len(),
            distinct_moves(moves@),
            forall|i: int| 0 <= i < legal@.len() ==> (#[trigger] legal@[i]).uci.wf(),
            top@ == kept.reverse(),
            forall|x: u128| kept.contains(x) ==> legal_ranks(moves@, legal@).contains(x),
            rows@.len() == j,
            row_ranks(rows@) == top@.take(j as int),
            forall|k: int| 0 <= k < rows@.len() ==> row_from(#[trigger] rows@[k], moves@, legal@),
        decreases top@.len() - j,
    {
        let rank = top[j];
        proof {
            assert(kept.contains(rank)) by {
                assert(kept[kept.len() - 1 - j] == rank);
            }
            assert(legal_ranks(moves@, legal@).contains(rank));
        }
        let ghost m = choose|m: int|
            0 <= m < moves@.len() && is_legal(legal@, (#[trigger] moves@[m]).0.code()) && rank
                == move_rank(moves@[m].1, moves@[m].0.code());
        proof {
            assert(moves@[m].0.wf());
        }
        let code: u16 = 65535 - (rank % 65536) as u16;
        let found = lookup(moves, code);
        proof {
            assert(moves@[m].0.code() == code);
        }
        let (uci, stats) = match found {
            Some(at) => {
                proof {
                    if at != m {
                        if at < m {
                            assert(moves@[at as int].0.code() != moves@[m].0.code());
                        } else {
                            assert(moves@[m].0.code() != moves@[at as int].0.code());
                        }
                    }
                }
                moves[at]
            },
            None => {
                proof {
                    assert(moves@[m].0.code() == code);
                }
                vstd::pervasive::unreached()
            },
        };
        let at_legal = match find_legal(legal, uci) {
            Some(at) => at,
            None => vstd::pervasive::unreached(),
        };
        let ghost before = rows@;
        let row = MoveRow { uci, san: slice_to_vec(legal[at_legal].san.as_slice()), stats };
        proof {
            assert(moves@[m] == (row.uci, row.stats));
            assert(first_legal(legal@, row.uci.code(), at_legal as int) && row.san@
                == legal@[at_legal as int].san@);
            assert(row_from(row, moves@, legal@));
            assert(move_rank(row.stats, row.uci.code()) == rank);
        }
        rows.push(row);
        proof {
            assert(row_ranks(rows@) =~= row_ranks(before).push(rank));
            assert(top@.take(j + 1) =~= top@.take(j as int).push(rank));
            assert forall|k: int| 0 <= k < rows@.len() implies row_from(
                #[trigger] rows@[k],
                moves@,
                legal@,
            ) by {
                if k < j {
                    assert(rows@[k] == before[k]);
                }
            }
        }
        j = j + 1;
    }
    proof {
        assert(top@.take(top@.len() as int) =~= top@);
        assert(row_ranks(rows@).reverse() =~= kept);
    }
    rows
}

/// The index of the move with the given code.
fn lookup(moves: &Vec<(UciMove, Stats)>, code: u16) -> (r: Option<usize>)
    requires
        distinct_moves(moves@),
    ensures
        match r {
            Some(i) => i < moves@.len() && moves@[i as int].0.code() == code,
            None => forall|i: int| 0 <= i < moves@.len() ==> (#[trigger] moves@[i]).0.code() != code,
        },
{
    let mut i: usize = 0;
    while i < moves.len()
        invariant
            i <= moves@.len(),
            distinct_moves(moves@),
            forall|j: int| 0 <= j < i ==> (#[trigger] moves@[j]).0.code() != code,
        decreases moves@.len() - i,
    {
        proof {
            assert(moves@[i as int].0.wf());
        }
        if moves[i].0.to_code() == code {
            return Some(i);
        }
        i = i + 1;
    }
    None
}

/// A move of an answer, with the mean ratings and the one game to show
/// with it.
#[derive(Debug)]
pub struct ExplorerMove {
    pub uci: UciMove,
    pub san: Vec<u8>,
    pub stats: Stats,
    pub average_rating: Option<u64>,
    pub average_opponent_rating: Option<u64>,
    pub game: Option<GameId>,
}

/// The mean rating behind the counters, rounded down: none without a game.
pub open spec fn mean_of(stats: Stats) -> Option<u64> {
    if stats.games() == 0 {
        None
    } else {
        Some(stats.rating_sum / stats.games())
    }
}

/// Completes a row of an answer to a personal query: the counters hold the
/// ratings of the opponents, and a move that was played in one game only
/// shows that game, if the entry points to it.
pub fn personal_move(entry: &PersonalEntry, row: MoveRow) -> (m: ExplorerMove)
    requires
        entry.wf(),
        row.uci.wf(),
    ensures
        m.uci == row.uci,
        m.san@ == row.san@,
        m.stats == row.stats,
        m.average_rating is None,
        m.average_opponent_rating == mean_of(row.stats),
        row.stats.games() != 1 ==> m.game is None,
        row.stats.games() == 1 ==> crate::model::personal::is_latest_game(
            entry@.recent,
            row.uci.code(),
            m.game,
        ),
{
    let game = if row.stats.is_single() {
        entry.latest_game_of(row.uci)
    } else {
        None
    };
    ExplorerMove {
        uci: row.uci,
        average_rating: None,
        average_opponent_rating: row.stats.average_rating(),
        stats: row.stats,
        san: row.san,
        game,
    }
}

/// Completes a row of an answer to a master query: the counters hold the
/// ratings of those who played the move, and a move that was played in one
/// game only shows that game.
pub fn master_move(entry: &MasterEntry, row: MoveRow) -> (m: ExplorerMove)
    requires
        entry.wf(),
        row.uci.wf(),
    ensures
        m.uci == row.uci,
        m.san@ == row.san@,
        m.stats == row.stats,
        m.average_rating == mean_of(row.stats),
        m.average_opponent_rating is None,
        row.stats.games() != 1 ==> m.game is None,
        row.stats.games() == 1 ==> crate::model::master::is_best_game(
            entry@.group(row.uci.code() as u128).games,
            m.game,
        ),
{
    let game = if row.stats.is_single() {
        entry.best_game_of(row.uci)
    } else {
        None
    };
    ExplorerMove {
        uci: row.uci,
        average_rating: row.stats.average_rating(),
        average_opponent_rating: None,
        stats: row.stats,
        san: row.san,
        game,
    }
}

/// The latest games that an entry points to, the latest first, no more
/// than `limit`: each with the move that was played in it.
pub fn recent_games(entry: &PersonalEntry, limit: usize) -> (games: Vec<(UciMove, GameId)>)
    requires
        entry.wf(),
    ensures
        games@.len() == largest(entry@.recent, limit as nat).len(),
        games@.len() <= limit,
        forall|j: int|
            0 <= j < games@.len() ==> (#[trigger] games@[j]).0.wf() && games@[j].1.wf()
                && recent_rank(games@[j].1@, games@[j].0.code()) == largest(
                entry@.recent,
                limit as nat,
            ).reverse()[j],
{
    let len = entry.recent_count();
    let count = if len > limit {
        limit
    } else {
        len
    };
    let ghost kept = largest(entry@.recent, limit as nat);
    proof {
        assert(kept =~= entry@.recent.skip(len - count));
    }
    let mut games: Vec<(UciMove, GameId)> = Vec::new();
    let mut j: usize = 0;
    while j < count
        invariant
            j <= count,
            count <= len,
            len == entry@.recent.len(),
            entry.wf(),
            kept == entry@.recent.skip(len - count),
            games@.len() == j,
            forall|k: int|
                0 <= k < games@.len() ==> (#[trigger] games@[k]).0.wf() && games@[k].1.wf()
                    && recent_rank(games@[k].1@, games@[k].0.code()) == kept.reverse()[k],
        decreases count - j,
    {
        let pair = entry.recent_at(len - 1 - j);
        proof {
            assert(kept.reverse()[j as int] == entry@.recent[len - 1 - j]);
        }
        games.push(pair);
        j = j + 1;
    }
    games
}

/// The place of a game among the top games of an answer: by the rank of
/// the game, then by the code of the move.
pub open spec fn top_rank(game: u128, code: u16) -> u128 {
    (game * 65536 + code) as u128
}

/// The ranks of all the games of the moves of an entry.
pub open spec fn game_ranks(entry: crate::model::master::MasterView) -> Set<u128> {
    Set::new(
        |r: u128|
            exists|i: int, j: int|
                0 <= i < entry.groups.len() && 0 <= j < entry.groups[i].1.games.len() && r
                    == top_rank(#[trigger] entry.groups[i].1.games[j], entry.groups[i].0 as u16),
    )
}

/// The places of the games of an answer, in their order.
pub open spec fn top_ranks(games: Seq<TopGame>) -> Seq<u128> {
    Seq::new(games.len(), |j: int| top_rank(games[j].rank, games[j].uci.code()))
}

/// Whether a game of an answer is well formed and has the given place.
pub open spec fn good_top_game(game: TopGame, rank: u128) -> bool {
    &&& game.uci.wf()
    &&& game.id.wf()
    &&& valid_master_rank(game.rank)
    &&& game.rank % 0x1_0000_0000_0000 == game.id@
    &&& top_rank(game.rank, game.uci.code()) == rank
}

/// A place among the top games gives back the rank of the game and the
/// code of the move that it was made of.
proof fn lemma_top_rank_parts(game: u128, key: u128)
    requires
        game < 0x1_0000_0000_0000_0000_0000,
        key < 65536,
    ensures
        (game * 65536 + key) / 65536 == game,
        (game * 65536 + key) % 65536 == key,
        game * 65536 + key < 0x1_0000_0000_0000_0000_0000_0000,
{
}

/// A valid rank of a game is below `2` to the power `72`.
proof fn lemma_master_rank_bound(game: u128)
    requires
        valid_master_rank(game),
    ensures
        game < 0x1_0000_0000_0000_0000_0000,
{
    let q = game / 0x1_0000_0000_0000;
    let r = game % 0x1_0000_0000_0000;
    assert(game == q * 0x1_0000_0000_0000 + r);
}

/// A place among the games of an entry is made of the rank of a game and
/// the code of a move.
proof fn lemma_game_rank_parts(entry: &MasterEntry, rank: u128)
    requires
        entry.wf(),
        game_ranks(entry@).contains(rank),
    ensures
        valid_master_rank(rank / 65536),
        UciMove::of_code((rank % 65536) as u16) is Some,
        top_rank(rank / 65536, (rank % 65536) as u16) == rank,
{
    entry.lemma_wf();
    let (a, b) = choose|a: int, b: int|
        0 <= a < entry@.groups.len() && 0 <= b < entry@.groups[a].1.games.len() && rank
            == top_rank(#[trigger] entry@.groups[a].1.games[b], entry@.groups[a].0 as u16);
    let game = entry@.groups[a].1.games[b];
    let key = entry@.groups[a].0;
    assert(valid_master_rank(game)) by {
        assert(entry@.groups[a].1.wf());
    }
    assert(crate::model::personal::valid_move_key(key));
    lemma_master_rank_bound(game);
    lemma_top_rank_parts(game, key);
}

/// A game of an answer: the move played, the mean rating of the players,
/// and the game.
#[derive(Clone, Copy, Debug)]
pub struct TopGame {
    pub uci: UciMove,
    pub rank: u128,
    pub id: GameId,
}

/// The best games that an entry points to, over all its moves, the best
/// first, no more than `limit`.
#[verifier::rlimit(50)]
pub fn top_games(entry: &MasterEntry, limit: usize) -> (games: Vec<TopGame>)
    requires
        entry.wf(),
    ensures
        games@.len() <= limit,
        is_top(top_ranks(games@).reverse(), game_ranks(entry@), limit as nat),
        forall|j: int| 0 <= j < games@.len() ==> good_top_game(#[trigger] games@[j], top_ranks(games@)[j]),
        forall|j: int|
            0 <= j < games@.len() ==> (#[trigger] games@[j]).uci.wf() && games@[j].id.wf()
                && valid_master_rank(games@[j].rank) && games@[j].rank % 0x1_0000_0000_0000
                == games@[j].id@,
{
    proof {
        entry.lemma_wf();
    }
    let mut ranks = KeySet::new();
    let n = entry.move_count();
    let mut i: usize = 0;
    while i < n
        invariant
            i <= n,
            n == entry@.groups.len(),
            entry.wf(),
            ranks.wf(),
            forall|x: u128| #[trigger]
                ranks@.contains(x) <==> exists|a: int, b: int|
                    0 <= a < i && 0 <= b < entry@.groups[a].1.games.len() && x == top_rank(
                        #[trigger] entry@.groups[a].1.games[b],
                        entry@.groups[a].0 as u16,
                    ),
        decreases n - i,
    {
        let (uci, _) = entry.move_at(i);
        let code = uci.to_code();
        let count = entry.game_count(i);
        let ghost outer = ranks@;
        let mut j: usize = 0;
        while j < count
            invariant
                j <= count,
                i < n,
                n == entry@.groups.len(),
                entry.wf(),
                ranks.wf(),
                count == entry@.groups[i as int].1.games.len(),
                code == entry@.groups[i as int].0,
                forall|x: u128| #[trigger]
                    ranks@.contains(x) <==> (outer.contains(x) || exists|b: int|
                        0 <= b < j && x == top_rank(
                            #[trigger] entry@.groups[i as int].1.games[b],
                            code,
                        )),
            decreases count - j,
        {
            let game = entry.game_rank(i, j);
            let ghost before = ranks@;
            let rank: u128 = game * 65536 + code as u128;
            ranks.insert(rank);
            proof {
                assert(rank == top_rank(game, code));
                assert forall|x: u128| #[trigger]
                    ranks@.contains(x) <==> (outer.contains(x) || exists|b: int|
                        0 <= b < j + 1 && x == top_rank(
                            #[trigger] entry@.groups[i as int].1.games[b],
                            code,
                        )) by {
                    assert(before.contains(x) <==> (outer.contains(x) || exists|b: int|
                        0 <= b < j && x == top_rank(
                            #[trigger] entry@.groups[i as int].1.games[b],
                            code,
                        )));
                    if x == rank {
                        assert(x == top_rank(entry@.groups[i as int].1.games[j as int], code));
                    }
                    if exists|b: int|
                        0 <= b < j + 1 && x == top_rank(
                            #[trigger] entry@.groups[i as int].1.games[b],
                            code,
                        ) {
                        let b = choose|b: int|
                            0 <= b < j + 1 && x == top_rank(
                                #[trigger] entry@.groups[i as int].1.games[b],
                                code,
                            );
                        if b < j {
                            assert(x == top_rank(entry@.groups[i as int].1.games[b], code));
                        }
                    }
                }
            }
            j = j + 1;
        }
        proof {
            assert forall|x: u128| #[trigger]
                ranks@.contains(x) <==> exists|a: int, b: int|
                    0 <= a < i + 1 && 0 <= b < entry@.groups[a].1.games.len() && x == top_rank(
                        #[trigger] entry@.groups[a].1.games[b],
                        entry@.groups[a].0 as u16,
                    ) by {
                assert(outer.contains(x) <==> exists|a: int, b: int|
                    0 <= a < i && 0 <= b < entry@.groups[a].1.games.len() && x == top_rank(
                        #[trigger] entry@.groups[a].1.games[b],
                        entry@.groups[a].0 as u16,
                    ));
                if outer.contains(x) {
                    let (a, b) = choose|a: int, b: int|
                        0 <= a < i && 0 <= b < entry@.groups[a].1.games.len() && x == top_rank(
                            #[trigger] entry@.groups[a].1.games[b],
                            entry@.groups[a].0 as u16,
                        );
                    assert(x == top_rank(
                        entry@.groups[a].1.games[b],
                        entry@.groups[a].0 as u16,
                    ));
                }
                if exists|b: int|
                    0 <= b < count && x == top_rank(
                        #[trigger] entry@.groups[i as int].1.games[b],
                        code,
                    ) {
                    let b = choose|b: int|
                        0 <= b < count && x == top_rank(
                            #[trigger] entry@.groups[i as int].1.games[b],
                            code,
                        );
                    assert(x == top_rank(
                        entry@.groups[i as int].1.games[b],
                        entry@.groups[i as int].0 as u16,
                    ));
                }
                if exists|a: int, b: int|
                    0 <= a < i + 1 && 0 <= b < entry@.groups[a].1.games.len() && x == top_rank(
                        #[trigger] entry@.groups[a].1.games[b],
                        entry@.groups[a].0 as u16,
                    ) {
                    let (a, b) = choose|a: int, b: int|
                        0 <= a < i + 1 && 0 <= b < entry@.groups[a].1.games.len() && x
                            == top_rank(
                            #[trigger] entry@.groups[a].1.games[b],
                            entry@.groups[a].0 as u16,
                        );
                    if a < i {
                        assert(x == top_rank(
                            entry@.groups[a].1.games[b],
                            entry@.groups[a].0 as u16,
                        ));
                    } else {
                        assert(x == top_rank(entry@.groups[i as int].1.games[b], code));
                    }
                }
            }
        }
        i = i + 1;
    }
    proof {
        lemma_largest_is_top(ranks@, limit as nat);
        assert(Set::new(|x: u128| ranks@.contains(x)) =~= game_ranks(entry@)) by {
            assert forall|x: u128| ranks@.contains(x) <==> game_ranks(entry@).contains(x) by {
                assert(ranks@.contains(x) <==> exists|a: int, b: int|
                    0 <= a < n && 0 <= b < entry@.groups[a].1.games.len() && x == top_rank(
                        #[trigger] entry@.groups[a].1.games[b],
                        entry@.groups[a].0 as u16,
                    ));
            }
        }
        crate::model::keyset::lemma_largest(ranks@, limit as nat);
    }
    let top = ranks.top(limit);
    let ghost kept = largest(ranks@, limit as nat);
    let mut games: Vec<TopGame> = Vec::new();
    let mut k: usize = 0;
    while k < top.len()
        invariant
            k <= top@.len(),
            entry.wf(),
            top@ == kept.reverse(),
            forall|x: u128| kept.contains(x) ==> #[trigger] game_ranks(entry@).contains(x),
            games@.len() == k,
            forall|j: int| 0 <= j < games@.len() ==> good_top_game(#[trigger] games@[j], top@[j]),
        decreases top@.len() - k,
    {
        let rank = top[k];
        proof {
            assert(kept.contains(rank)) by {
                assert(kept[kept.len() - 1 - k] == rank);
            }
            assert(game_ranks(entry@).contains(rank));
            lemma_game_rank_parts(entry, rank);
        }
        let game = rank / 65536;
        let code = (rank % 65536) as u16;
        let uci = match UciMove::from_code(code) {
            Some(uci) => uci,
            None => vstd::pervasive::unreached(),
        };
        let (_, _, id) = crate::model::master::split_rank(game);
        proof {
            id.lemma_bound();
        }
        games.push(TopGame { uci, rank: game, id });
        k = k + 1;
    }
    proof {
        assert(top_ranks(games@) =~= top@);
        assert(top@.reverse() =~= kept);
    }
    games
}

} // verus!
