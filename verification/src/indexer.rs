//! The indexing of a game of a player: whether a game is still to be
//! counted for the player, and what is written for a game that is.

use vstd::prelude::*;
use crate::db::{merge_game_info, merge_personal, Keyspace, WriteKind, WriteOp, WriteOpView};
use crate::importer::{op_views, Ply};
use crate::model::basic::{Color, Variant};
use crate::model::endian::be_bytes;
use crate::model::game_id::GameId;
use crate::model::game_info::{GameInfo, GameInfoView};
use crate::model::key::{personal_key_bytes, KeyBuilder, PersonalPrefixView};
use crate::model::personal::{personal_encoding, recent_rank, PersonalEntry, PersonalView};
use crate::model::stats::Stats;
use crate::model::user::UserId;
use crate::model::year::{year_offset, AnnoLichess};

verus! {

/// The side that a player has in a game: none if the player is neither of
/// the two.
pub open spec fn side_in(player: Seq<u8>, white: Seq<u8>, black: Seq<u8>) -> Option<Color> {
    if white == player {
        Some(Color::White)
    } else if black == player {
        Some(Color::Black)
    } else {
        None
    }
}

/// Whether two strings of bytes are the same.
pub fn same_bytes(a: &[u8], b: &[u8]) -> (same: bool)
    ensures
        same == (a@ == b@),
{
    if a.len() != b.len() {
        return false;
    }
    let mut i: usize = 0;
    while i < a.len()
        invariant
            i <= a@.len(),
            a@.len() == b@.len(),
            forall|j: int| 0 <= j < i ==> a@[j] == b@[j],
        decreases a@.len() - i,
    {
        if a[i] != b[i] {
            return false;
        }
        i = i + 1;
    }
    proof {
        assert(a@ =~= b@);
    }
    true
}

/// The side that a player has in a game.
pub fn side_of(player: &UserId, info: &GameInfo) -> (side: Option<Color>)
    ensures
        side == side_in(player@, info@.white_name, info@.black_name),
{
    if same_bytes(info.white.name.as_slice(), player.as_bytes()) {
        Some(Color::White)
    } else if same_bytes(info.black.name.as_slice(), player.as_bytes()) {
        Some(Color::Black)
    } else {
        None
    }
}

/// Whether what is stored of a game says that its moves are counted for
/// the player of a colour. Nothing stored says no.
pub open spec fn counted_for(known: Option<GameInfoView>, color: Color) -> bool {
    match known {
        None => false,
        Some(info) => match color {
            Color::White => info.indexed_white,
            Color::Black => info.indexed_black,
        },
    }
}

/// Whether what is stored of a game says that its moves are counted for
/// the player of a colour.
pub fn is_indexed(known: &Option<GameInfo>, color: Color) -> (counted: bool)
    ensures
        counted == counted_for(
            match known {
                Some(info) => Some(info@),
                None => None,
            },
            color,
        ),
{
    match known {
        None => false,
        Some(info) => match color {
            Color::White => info.indexed_white,
            Color::Black => info.indexed_black,
        },
    }
}

/// The rating of the opponent of the player of a colour.
pub open spec fn opponent_rating(info: GameInfoView, color: Color) -> u16 {
    match color {
        Color::White => info.black_rating,
        Color::Black => info.white_rating,
    }
}

/// The bytes of the entry of one game of a player: the move played, with
/// the counters of the game and the pointer to it.
#[verifier::opaque]
pub open spec fn ply_value(id: nat, info: GameInfoView, color: Color, ply: Ply) -> Seq<u8> {
    personal_encoding(
        PersonalView {
            moves: seq![
                (ply.uci.code() as u128, Stats::single(info.winner, opponent_rating(info, color))),
            ],
            recent: seq![recent_rank(id, ply.uci.code())],
        },
    )
}

/// The write for a move of the player: the entry of the one game is folded
/// into what is stored under the key of the position in which the move was
/// played.
pub open spec fn ply_write(
    player: Seq<u8>,
    color: Color,
    id: nat,
    info: GameInfoView,
    ply: Ply,
) -> WriteOpView {
    WriteOpView {
        keyspace: Keyspace::Personal,
        kind: WriteKind::Merge,
        key: personal_key_bytes(
            PersonalPrefixView { user: player, color, variant: Variant::Chess, hash: ply.hash },
            year_offset(info.year as nat),
        ),
        value: ply_value(id, info, color, ply),
    }
}

/// The writes for the moves of the player among the plies of a game, in the
/// order of the plies: none for the moves of the opponent.
pub open spec fn ply_writes(
    player: Seq<u8>,
    color: Color,
    id: nat,
    info: GameInfoView,
    plies: Seq<Ply>,
) -> Seq<WriteOpView>
    decreases plies.len(),
{
    if plies.len() == 0 {
        Seq::empty()
    } else {
        let before = ply_writes(player, color, id, info, plies.drop_last());
        if plies.last().turn == color {
            before.push(ply_write(player, color, id, info, plies.last()))
        } else {
            before
        }
    }
}

/// The record of a game marked as counted for the player of a colour, and
/// for that player only.
pub open spec fn marked(info: GameInfoView, color: Color) -> GameInfoView {
    GameInfoView {
        indexed_white: color == Color::White,
        indexed_black: color == Color::Black,
        ..info
    }
}

/// The write that marks a game as counted for the player of a colour.
pub open spec fn mark_write(id: nat, info: GameInfoView, color: Color) -> WriteOpView {
    WriteOpView {
        keyspace: Keyspace::Game,
        kind: WriteKind::Merge,
        key: be_bytes(id, 6),
        value: marked(info, color).encoding(),
    }
}

/// The writes that count a game for a player: one for each move that the
/// player made, in the order of the game, then the mark on the game. The
/// mark comes last, so that a game whose writes were cut short is counted
/// again.
pub fn plan_index(player: &UserId, color: Color, id: GameId, info: &GameInfo, plies: &Vec<Ply>) -> (ops:
    Vec<WriteOp>)
    requires
        player.wf(),
        id.wf(),
        forall|i: int| 0 <= i < plies@.len() ==> (#[trigger] plies@[i]).uci.wf(),
    ensures
        op_views(ops@) == ply_writes(player@, color, id@, info@, plies@).push(
            mark_write(id@, info@, color),
        ),
{
    let year = AnnoLichess::from_year(info.year);
    let rating = match color {
        Color::White => info.black.rating,
        Color::Black => info.white.rating,
    };
    let mut ops: Vec<WriteOp> = Vec::new();
    let mut i: usize = 0;
    proof {
        assert(plies@.take(0) =~= Seq::empty());
        assert(op_views(ops@) =~= ply_writes(player@, color, id@, info@, plies@.take(0)));
    }
    while i < plies.len()
        invariant
            i <= plies@.len(),
            player.wf(),
            id.wf(),
            year@ == year_offset(info@.year as nat),
            rating == opponent_rating(info@, color),
            forall|i: int| 0 <= i < plies@.len() ==> (#[trigger] plies@[i]).uci.wf(),
            op_views(ops@) == ply_writes(player@, color, id@, info@, plies@.take(i as int)),
        decreases plies@.len() - i,
    {
        let ply = plies[i];
        let ghost before = op_views(ops@);
        proof {
            let t1 = plies@.take(i + 1);
            assert(t1.drop_last() =~= plies@.take(i as int));
            assert(t1.last() == ply);
            assert(plies@[i as int].uci.wf());
        }
        let mine = match (ply.turn, color) {
            (Color::White, Color::White) => true,
            (Color::Black, Color::Black) => true,
            _ => false,
        };
        if mine {
            let key = KeyBuilder::personal(player, color).with_zobrist(Variant::Chess, ply.hash).with_year(
                year,
            );
            let entry = PersonalEntry::new_single(ply.uci, id, info.winner, rating);
            ops.push(merge_personal(&key, &entry));
            proof {
                reveal(ply_value);
                entry.lemma_wf();
                assert(entry@.truncated() == entry@);
                assert(entry@ == (PersonalView { moves: entry@.moves, recent: entry@.recent }));
                assert(op_views(ops@) =~= before.push(ply_write(player@, color, id@, info@, ply)));
            }
        }
        i = i + 1;
    }
    proof {
        assert(plies@.take(plies@.len() as int) =~= plies@);
    }
    let ghost before = op_views(ops@);
    let mut mark = info.duplicate();
    mark.indexed_white = match color {
        Color::White => true,
        Color::Black => false,
    };
    mark.indexed_black = match color {
        Color::White => false,
        Color::Black => true,
    };
    ops.push(merge_game_info(id, &mark));
    proof {
        assert(mark@ == marked(info@, color));
        assert(op_views(ops@) =~= before.push(mark_write(id@, info@, color)));
    }
    ops
}

} // verus!
