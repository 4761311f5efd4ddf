//! The import of a master game: which games are taken, and what is written
//! for a game that is.

use vstd::prelude::*;
use vstd::slice::slice_to_vec;
use rustc_hash::FxHashMap;
use crate::api::Error;
use crate::chess::{
    hash_of, is_start, legal_move, move_in, move_notation, notation_of, play_move,
    position_after, position_hash, side_to_move, start_position, turn_of,
};
use crate::db::{merge_master, put_master_game, Keyspace, WriteKind, WriteOp, WriteOpView};
use crate::model::basic::{Color, Variant};
use crate::model::endian::be_bytes;
use crate::model::game_id::GameId;
use crate::model::key::{master_key_bytes, KeyBuilder, MasterKey, MasterPrefixView};
use crate::model::master::{master_encoding, single_master, MasterEntry};
use crate::model::uci::UciMove;
use crate::model::year::{year_offset, AnnoLichess};

verus! {

/// The mean rating below which a game is not taken.
pub const MIN_AVERAGE_RATING: u32 = 2200;

/// What the import reads of a master game.
#[derive(Debug)]
pub struct MasterGame {
    pub white_rating: u16,
    pub black_rating: u16,
    pub winner: Option<Color>,
    pub year: u16,
    pub moves: Vec<UciMove>,
}

/// A move of a game, with the position it was played in.
#[derive(Clone, Copy, Debug)]
pub struct Ply {
    pub hash: u128,
    pub uci: UciMove,
    pub turn: Color,
}

/// The move that stands for a position of a game, and who played it.
#[derive(Clone, Copy, Debug)]
pub struct PlyMove {
    pub uci: UciMove,
    pub turn: Color,
}

/// Whether the players of a game are rated too low on average.
pub open spec fn rated_too_low(white: u16, black: u16) -> bool {
    (white + black) / 2 < MIN_AVERAGE_RATING
}

/// Takes or refuses a game by the mean rating of its players.
pub fn check_rating(id: GameId, white: u16, black: u16) -> (r: Result<(), Error>)
    ensures
        rated_too_low(white, black) ==> r == Err::<(), _>(Error::RejectedImport(id)),
        !rated_too_low(white, black) ==> r is Ok,
{
    if (white as u32 + black as u32) / 2 < MIN_AVERAGE_RATING {
        Err(Error::RejectedImport(id))
    } else {
        Ok(())
    }
}

/// Refuses a game that is stored already.
pub fn check_new(id: GameId, stored: bool) -> (r: Result<(), Error>)
    ensures
        stored ==> r == Err::<(), _>(Error::DuplicateGame(id)),
        !stored ==> r is Ok,
{
    if stored {
        Err(Error::DuplicateGame(id))
    } else {
        Ok(())
    }
}

/// The hasher of `rustc_hash`. Nothing of it is visible here.
#[verifier::external_type_specification]
#[verifier::external_body]
pub struct ExFxBuildHasher(rustc_hash::FxBuildHasher);

/// The positions of a game, each with the move that stands for it.
pub type PositionTable = FxHashMap<u128, PlyMove>;

/// No position.
pub open spec fn no_positions() -> Map<u128, PlyMove> {
    Map::empty()
}

/// `rustc_hash::FxHashMap::default`: a map that holds nothing.
#[verifier::external_body]
fn fx_new() -> (table: PositionTable)
    ensures
        table@ == no_positions(),
{
    FxHashMap::default()
}

/// `insert` of `rustc_hash::FxHashMap`: afterwards the map holds the value
/// under the key, in place of what it held there, and nothing else has
/// changed.
#[verifier::external_body]
fn fx_insert(table: &mut PositionTable, key: u128, value: PlyMove)
    ensures
        final(table)@ == old(table)@.insert(key, value),
{
    table.insert(key, value);
}

/// `into_iter` of `rustc_hash::FxHashMap`: each key of the map once, with
/// its value, in an order that is not specified.
#[verifier::external_body]
fn fx_into_vec(table: PositionTable) -> (pairs: Vec<(u128, PlyMove)>)
    ensures
        forall|i: int, j: int|
            0 <= i < j < pairs@.len() ==> (#[trigger] pairs@[i]).0 != (#[trigger] pairs@[j]).0,
        forall|i: int|
            0 <= i < pairs@.len() ==> table@.contains_key((#[trigger] pairs@[i]).0)
                && table@[pairs@[i].0] == pairs@[i].1,
        forall|k: u128|
            table@.contains_key(k) ==> exists|i: int|
                0 <= i < pairs@.len() && (#[trigger] pairs@[i]).0 == k,
{
    table.into_iter().collect()
}

/// The plies of a game replayed from a position: for each move the hash of
/// the position it is played in, the side that plays it, and the move in
/// the notation of the store. None where a move is out of range or cannot be
/// played.
pub open spec fn replayed_from(pos: shakmaty::Chess, moves: Seq<UciMove>) -> Option<Seq<Ply>>
    decreases moves.len(),
{
    if moves.len() == 0 {
        Some(Seq::empty())
    } else if !moves[0].wf() {
        None
    } else {
        match move_in(pos, moves[0]) {
            None => None,
            Some(m) => match position_after(pos, m) {
                None => None,
                Some(next) => match replayed_from(next, moves.skip(1)) {
                    None => None,
                    Some(rest) => Some(
                        seq![
                            Ply {
                                hash: hash_of(pos),
                                uci: notation_of(m),
                                turn: turn_of(pos),
                            },
                        ] + rest,
                    ),
                },
            },
        }
    }
}

/// The plies that are done, followed by those that are to come, if they
/// come.
pub open spec fn so_far(done: Seq<Ply>, rest: Option<Seq<Ply>>) -> Option<Seq<Ply>> {
    match rest {
        None => None,
        Some(rest) => Some(done + rest),
    }
}

/// A replay gives a ply for each move.
pub proof fn lemma_replayed_len(pos: shakmaty::Chess, moves: Seq<UciMove>)
    requires
        replayed_from(pos, moves) is Some,
    ensures
        replayed_from(pos, moves).unwrap().len() == moves.len(),
    decreases moves.len(),
{
    if moves.len() > 0 {
        let m = move_in(pos, moves[0]).unwrap();
        let next = position_after(pos, m).unwrap();
        lemma_replayed_len(next, moves.skip(1));
    }
}

/// A game with a move out of range cannot be replayed, from whatever
/// position.
pub proof fn lemma_replay_needs_moves_in_range(pos: shakmaty::Chess, moves: Seq<UciMove>, i: int)
    requires
        0 <= i < moves.len(),
        !moves[i].wf(),
    ensures
        replayed_from(pos, moves) is None,
    decreases moves.len(),
{
    if i > 0 && moves[0].wf() {
        match move_in(pos, moves[0]) {
            None => {},
            Some(m) => match position_after(pos, m) {
                None => {},
                Some(next) => {
                    assert(moves.skip(1)[i - 1] == moves[i]);
                    lemma_replay_needs_moves_in_range(next, moves.skip(1), i - 1);
                },
            },
        }
    }
}

/// Replays a game from a position: for each move the hash of the position
/// it is played in, the side that plays it, and the move in the notation of
/// the store. Fails at a move that is out of range or cannot be played.
pub fn replay_from(start: shakmaty::Chess, moves: &Vec<UciMove>) -> (r: Result<Vec<Ply>, Error>)
    ensures
        match r {
            Ok(plies) => replayed_from(start, moves@) == Some(plies@) && forall|i: int|
                0 <= i < plies@.len() ==> (#[trigger] plies@[i]).uci.wf(),
            Err(e) => e == Error::InvalidPosition && replayed_from(start, moves@) is None,
        },
{
    let ghost first = start;
    let mut pos = start;
    let mut plies: Vec<Ply> = Vec::new();
    let mut i: usize = 0;
    proof {
        assert(moves@.skip(0) =~= moves@);
        match replayed_from(pos, moves@) {
            None => {},
            Some(rest) => {
                assert(plies@ + rest =~= rest);
            },
        }
    }
    while i < moves.len()
        invariant
            i <= moves@.len(),
            first == start,
            plies@.len() == i,
            forall|j: int| 0 <= j < plies@.len() ==> (#[trigger] plies@[j]).uci.wf(),
            replayed_from(first, moves@) == so_far(
                plies@,
                replayed_from(pos, moves@.skip(i as int)),
            ),
        decreases moves@.len() - i,
    {
        let ghost here = pos;
        let ghost todo = moves@.skip(i as int);
        let ghost done = plies@;
        proof {
            assert(todo[0] == moves@[i as int]);
            assert(todo.skip(1) =~= moves@.skip(i + 1));
        }
        let uci = moves[i];
        if !uci.is_valid() {
            return Err(Error::InvalidPosition);
        }
        let hash = position_hash(&pos);
        let turn = side_to_move(&pos);
        let m = match legal_move(&pos, &uci) {
            Some(m) => m,
            None => {
                return Err(Error::InvalidPosition);
            },
        };
        let ply = Ply { hash, uci: move_notation(&m), turn };
        plies.push(ply);
        pos = match play_move(pos, &m) {
            Some(next) => next,
            None => {
                return Err(Error::InvalidPosition);
            },
        };
        proof {
            match replayed_from(pos, moves@.skip(i + 1)) {
                None => {
                    assert(replayed_from(here, todo) is None);
                },
                Some(rest) => {
                    assert(replayed_from(here, todo) == Some(seq![ply] + rest));
                    assert(done + (seq![ply] + rest) =~= plies@ + rest);
                },
            }
        }
        i = i + 1;
    }
    proof {
        assert(moves@.skip(moves@.len() as int) =~= Seq::<UciMove>::empty());
        assert(plies@ + Seq::<Ply>::empty() =~= plies@);
    }
    Ok(plies)
}

/// Replays a game from the starting position: for each move the hash of the
/// position it is played in, the side that plays it, and the move in the
/// notation of the store. Fails at a move that is out of range or cannot be
/// played.
pub fn replay(moves: &Vec<UciMove>) -> (r: Result<Vec<Ply>, Error>)
    ensures
        exists|start: shakmaty::Chess|
            is_start(start) && match r {
                Ok(plies) => #[trigger] replayed_from(start, moves@) == Some(plies@),
                Err(_) => replayed_from(start, moves@) is None,
            },
        match r {
            Ok(plies) => plies@.len() == moves@.len() && forall|i: int|
                0 <= i < plies@.len() ==> (#[trigger] plies@[i]).uci.wf(),
            Err(e) => e == Error::InvalidPosition && moves@.len() > 0,
        },
        (exists|i: int| 0 <= i < moves@.len() && !(#[trigger] moves@[i]).wf()) ==> r is Err,
{
    let start = start_position();
    let ghost first = start;
    let r = replay_from(start, moves);
    proof {
        if replayed_from(first, moves@) is Some {
            lemma_replayed_len(first, moves@);
        }
        if exists|i: int| 0 <= i < moves@.len() && !(#[trigger] moves@[i]).wf() {
            let i = choose|i: int| 0 <= i < moves@.len() && !(#[trigger] moves@[i]).wf();
            lemma_replay_needs_moves_in_range(first, moves@, i);
        }
        assert(is_start(first) && match r {
            Ok(plies) => replayed_from(first, moves@) == Some(plies@),
            Err(_) => replayed_from(first, moves@) is None,
        });
    }
    r
}

/// The key of a position of the master corpus in the year of a game.
pub fn position_key(hash: u128, year: u16) -> (key: MasterKey)
    ensures
        key.prefix_view() == (MasterPrefixView { variant: Variant::Chess, hash }),
        key.year_view() == year_offset(year as nat),
{
    KeyBuilder::master().with_zobrist(Variant::Chess, hash).with_year(AnnoLichess::from_year(year))
}

/// The key of the position in which the last move of a game was played:
/// the key under which the store is asked whether the game is known. None
/// for a game without moves.
pub fn final_key(plies: &Vec<Ply>, year: u16) -> (r: Option<MasterKey>)
    ensures
        plies@.len() == 0 ==> r is None,
        plies@.len() > 0 ==> r is Some && r.unwrap().prefix_view() == (MasterPrefixView {
            variant: Variant::Chess,
            hash: plies@.last().hash,
        }) && r.unwrap().year_view() == year_offset(year as nat),
{
    if plies.len() == 0 {
        None
    } else {
        Some(position_key(plies[plies.len() - 1].hash, year))
    }
}

/// The positions of a game, each with the last move that was played in it.
pub open spec fn positions(plies: Seq<Ply>) -> Map<u128, PlyMove>
    decreases plies.len(),
{
    if plies.len() == 0 {
        Map::empty()
    } else {
        positions(plies.drop_last()).insert(
            plies.last().hash,
            PlyMove { uci: plies.last().uci, turn: plies.last().turn },
        )
    }
}

/// The rating of the player of a colour.
pub open spec fn rating_of(game: MasterGame, color: Color) -> u16 {
    match color {
        Color::White => game.white_rating,
        Color::Black => game.black_rating,
    }
}

/// The key of a position of a game.
pub open spec fn position_key_bytes(game: MasterGame, hash: u128) -> Seq<u8> {
    master_key_bytes(
        MasterPrefixView { variant: Variant::Chess, hash },
        year_offset(game.year as nat),
    )
}

/// The bytes of the entry of one game: the move played in a position, with
/// the counters of the game and the pointer to it.
#[verifier::opaque]
pub open spec fn position_value(id: nat, game: MasterGame, played: PlyMove) -> Seq<u8> {
    master_encoding(
        single_master(
            played.uci,
            id,
            game.winner,
            rating_of(game, played.turn),
            rating_of(game, played.turn.other()),
            year_offset(game.year as nat) as u8,
        ),
    )
}

/// The write for a position of a game: the entry of the one game is folded
/// into what is stored under the key of the position.
pub open spec fn position_write(id: nat, game: MasterGame, hash: u128, played: PlyMove) -> WriteOpView {
    WriteOpView {
        keyspace: Keyspace::Master,
        kind: WriteKind::Merge,
        key: position_key_bytes(game, hash),
        value: position_value(id, game, played),
    }
}

/// Two positions of a game have different keys.
pub proof fn lemma_position_keys_differ(game: MasterGame, first: u128, second: u128)
    requires
        first != second,
    ensures
        position_key_bytes(game, first) != position_key_bytes(game, second),
{
    let p = MasterPrefixView { variant: Variant::Chess, hash: first };
    let q = MasterPrefixView { variant: Variant::Chess, hash: second };
    let year = year_offset(game.year as nat) as u8;
    crate::model::key::lemma_master_prefix_containment(p, year, q, year);
}

/// The writes as values.
pub open spec fn op_views(ops: Seq<WriteOp>) -> Seq<WriteOpView> {
    Seq::new(ops.len(), |j: int| ops[j]@)
}

/// Whether a write is the write for one of the positions.
pub open spec fn planned(op: WriteOpView, id: nat, game: MasterGame, all: Map<u128, PlyMove>) -> bool {
    exists|hash: u128| all.contains_key(hash) && op == position_write(id, game, hash, all[hash])
}

/// Where the writes behind the first are those for the pairs of a list
/// that holds each position once, they are the writes for the positions,
/// one for each, under keys that differ.
#[verifier::rlimit(50)]
proof fn lemma_batch(
    views: Seq<WriteOpView>,
    pairs: Seq<(u128, PlyMove)>,
    all: Map<u128, PlyMove>,
    id: nat,
    game: MasterGame,
)
    requires
        views.len() == pairs.len() + 1,
        forall|a: int, b: int|
            0 <= a < b < pairs.len() ==> (#[trigger] pairs[a]).0 != (#[trigger] pairs[b]).0,
        forall|a: int|
            0 <= a < pairs.len() ==> all.contains_key((#[trigger] pairs[a]).0) && all[pairs[a].0]
                == pairs[a].1,
        forall|k: u128|
            all.contains_key(k) ==> exists|i: int| 0 <= i < pairs.len() && (#[trigger] pairs[i]).0 == k,
        forall|a: int|
            0 <= a < pairs.len() ==> #[trigger] views[a + 1] == position_write(
                id,
                game,
                pairs[a].0,
                pairs[a].1,
            ),
    ensures
        forall|j: int| 1 <= j < views.len() ==> planned(#[trigger] views[j], id, game, all),
        forall|hash: u128|
            all.contains_key(hash) ==> exists|j: int|
                1 <= j < views.len() && #[trigger] views[j] == position_write(
                    id,
                    game,
                    hash,
                    all[hash],
                ),
        forall|i: int, j: int|
            1 <= i < j < views.len() ==> (#[trigger] views[i]).key != (#[trigger] views[j]).key,
{
    assert forall|j: int| 1 <= j < views.len() implies planned(#[trigger] views[j], id, game, all) by {
        let hash = pairs[j - 1].0;
        assert(views[(j - 1) + 1] == position_write(id, game, pairs[j - 1].0, pairs[j - 1].1));
        assert(all.contains_key(hash) && views[j] == position_write(id, game, hash, all[hash]));
    }
    assert forall|hash: u128| all.contains_key(hash) implies exists|j: int|
        1 <= j < views.len() && #[trigger] views[j] == position_write(id, game, hash, all[hash]) by {
        let b = choose|b: int| 0 <= b < pairs.len() && (#[trigger] pairs[b]).0 == hash;
        assert(views[b + 1] == position_write(id, game, pairs[b].0, pairs[b].1));
    }
    assert forall|i: int, j: int| 1 <= i < j < views.len() implies (#[trigger] views[i]).key != (
    #[trigger] views[j]).key by {
        assert(views[(i - 1) + 1] == position_write(id, game, pairs[i - 1].0, pairs[i - 1].1));
        assert(views[(j - 1) + 1] == position_write(id, game, pairs[j - 1].0, pairs[j - 1].1));
        assert(pairs[i - 1].0 != pairs[j - 1].0);
        lemma_position_keys_differ(game, pairs[i - 1].0, pairs[j - 1].0);
    }
}

/// Whether the writes are those of a game: the game itself under its
/// identifier, then one write for each position of the game, under keys
/// that differ.
pub open spec fn is_batch(
    ops: Seq<WriteOpView>,
    id: nat,
    game: MasterGame,
    payload: Seq<u8>,
    plies: Seq<Ply>,
) -> bool {
    &&& ops.len() >= 1
    &&& ops[0] == (WriteOpView {
        keyspace: Keyspace::MasterGame,
        kind: WriteKind::Put,
        key: be_bytes(id, 6),
        value: payload,
    })
    &&& forall|j: int| 1 <= j < ops.len() ==> planned(#[trigger] ops[j], id, game, positions(plies))
    &&& forall|hash: u128|
        positions(plies).contains_key(hash) ==> exists|j: int|
            1 <= j < ops.len() && #[trigger] ops[j] == position_write(
                id,
                game,
                hash,
                positions(plies)[hash],
            )
    &&& forall|i: int, j: int|
        1 <= i < j < ops.len() ==> (#[trigger] ops[i]).key != (#[trigger] ops[j]).key
}

/// The writes of a game: the game itself under its identifier, then one
/// write for each position of the game, however often the game passes
/// through it. The order of the writes for the positions is not specified.
#[verifier::rlimit(50)]
pub fn plan_batch(id: GameId, game: &MasterGame, payload: Vec<u8>, plies: &Vec<Ply>) -> (ops: Vec<
    WriteOp,
>)
    requires
        id.wf(),
        forall|i: int| 0 <= i < plies@.len() ==> (#[trigger] plies@[i]).uci.wf(),
    ensures
        is_batch(op_views(ops@), id@, *game, payload@, plies@),
{
    let mut without_loops = fx_new();
    let mut i: usize = 0;
    proof {
        assert(plies@.take(0) =~= Seq::empty());
    }
    while i < plies.len()
        invariant
            i <= plies@.len(),
            without_loops@ == positions(plies@.take(i as int)),
            forall|k: u128|
                without_loops@.contains_key(k) ==> (#[trigger] without_loops@[k]).uci.wf(),
            forall|i: int| 0 <= i < plies@.len() ==> (#[trigger] plies@[i]).uci.wf(),
        decreases plies@.len() - i,
    {
        let ply = plies[i];
        proof {
            let t1 = plies@.take(i + 1);
            assert(t1.drop_last() =~= plies@.take(i as int));
            assert(t1.last() == ply);
            assert(plies@[i as int].uci.wf());
        }
        fx_insert(&mut without_loops, ply.hash, PlyMove { uci: ply.uci, turn: ply.turn });
        i = i + 1;
    }
    proof {
        assert(plies@.take(plies@.len() as int) =~= plies@);
    }
    let ghost all = without_loops@;
    let pairs = fx_into_vec(without_loops);
    let year = AnnoLichess::from_year(game.year);
    let mut ops: Vec<WriteOp> = Vec::new();
    ops.push(put_master_game(id, payload));
    let mut j: usize = 0;
    while j < pairs.len()
        invariant
            j <= pairs@.len(),
            id.wf(),
            all == positions(plies@),
            year@ == year_offset(game.year as nat),
            forall|k: u128| all.contains_key(k) ==> (#[trigger] all[k]).uci.wf(),
            forall|a: int, b: int|
                0 <= a < b < pairs@.len() ==> (#[trigger] pairs@[a]).0 != (#[trigger] pairs@[b]).0,
            forall|a: int|
                0 <= a < pairs@.len() ==> all.contains_key((#[trigger] pairs@[a]).0) && all[pairs@[a].0]
                    == pairs@[a].1,
            ops@.len() == j + 1,
            ops@[0]@ == (WriteOpView {
                keyspace: Keyspace::MasterGame,
                kind: WriteKind::Put,
                key: be_bytes(id@, 6),
                value: payload@,
            }),
            forall|a: int|
                0 <= a < j ==> (#[trigger] ops@[a + 1])@ == position_write(
                    id@,
                    *game,
                    pairs@[a].0,
                    pairs@[a].1,
                ),
        decreases pairs@.len() - j,
    {
        let (hash, played) = pairs[j];
        proof {
            assert(all.contains_key(pairs@[j as int].0));
            assert(all[hash].uci.wf());
        }
        let key = KeyBuilder::master().with_zobrist(Variant::Chess, hash).with_year(year);
        let (mover, opponent) = match played.turn {
            Color::White => (game.white_rating, game.black_rating),
            Color::Black => (game.black_rating, game.white_rating),
        };
        let entry = MasterEntry::new_single(played.uci, id, game.winner, mover, opponent, year);
        let ghost before = ops@;
        ops.push(merge_master(&key, &entry));
        proof {
            reveal(position_value);
            assert(ops@[j + 1]@ == position_write(id@, *game, hash, played));
            assert forall|a: int| 0 <= a < j + 1 implies (#[trigger] ops@[a + 1])@
                == position_write(id@, *game, pairs@[a].0, pairs@[a].1) by {
                if a < j {
                    assert(ops@[a + 1] == before[a + 1]);
                }
            }
        }
        j = j + 1;
    }
    proof {
        let views = op_views(ops@);
        assert forall|a: int| 0 <= a < pairs@.len() implies #[trigger] views[a + 1]
            == position_write(id@, *game, pairs@[a].0, pairs@[a].1) by {
            assert(ops@[a + 1]@ == position_write(id@, *game, pairs@[a].0, pairs@[a].1));
        }
        lemma_batch(views, pairs@, all, id@, *game);
    }
    ops
}

/// What a store holds: the values under the keys of its keyspaces.
pub type StoreContents = Map<(Keyspace, Seq<u8>), Seq<u8>>;

/// What is stored under a key after a value has been folded into it.
pub open spec fn merged_value(keyspace: Keyspace, stored: Option<Seq<u8>>, value: Seq<u8>) -> Seq<u8> {
    let operands = match stored {
        Some(old) => seq![old, value],
        None => seq![value],
    };
    match keyspace {
        Keyspace::Personal => crate::db::personal_merge_result(operands),
        Keyspace::Master => crate::db::master_merge_result(operands),
        Keyspace::Game => match crate::db::game_merge_result(operands) {
            Some(merged) => merged,
            None => value,
        },
        Keyspace::MasterGame => value,
    }
}

/// The store after a list of writes.
pub open spec fn performed(store: StoreContents, ops: Seq<WriteOpView>) -> StoreContents
    decreases ops.len(),
{
    if ops.len() == 0 {
        store
    } else {
        let before = performed(store, ops.drop_last());
        let op = ops.last();
        let place = (op.keyspace, op.key);
        let stored = if before.contains_key(place) {
            Some(before[place])
        } else {
            None
        };
        before.insert(
            place,
            match op.kind {
                WriteKind::Put => op.value,
                WriteKind::Merge => merged_value(op.keyspace, stored, op.value),
            },
        )
    }
}

/// After the writes of a game the store holds the game under its
/// identifier: an import of the same identifier finds it there, and is
/// refused before anything is written.
pub proof fn lemma_imported_game_is_stored(
    store: StoreContents,
    ops: Seq<WriteOpView>,
    id: nat,
    game: MasterGame,
    payload: Seq<u8>,
    plies: Seq<Ply>,
)
    requires
        is_batch(ops, id, game, payload, plies),
    ensures
        performed(store, ops).contains_key((Keyspace::MasterGame, be_bytes(id, 6))),
        performed(store, ops)[(Keyspace::MasterGame, be_bytes(id, 6))] == payload,
{
    lemma_game_stays_stored(store, ops, id, game, payload, plies, ops.len() as int);
    assert(ops.take(ops.len() as int) =~= ops);
}

proof fn lemma_game_stays_stored(
    store: StoreContents,
    ops: Seq<WriteOpView>,
    id: nat,
    game: MasterGame,
    payload: Seq<u8>,
    plies: Seq<Ply>,
    n: int,
)
    requires
        is_batch(ops, id, game, payload, plies),
        1 <= n <= ops.len(),
    ensures
        performed(store, ops.take(n)).contains_key((Keyspace::MasterGame, be_bytes(id, 6))),
        performed(store, ops.take(n))[(Keyspace::MasterGame, be_bytes(id, 6))] == payload,
    decreases n,
{
    let done = ops.take(n);
    assert(done.drop_last() =~= ops.take(n - 1));
    assert(done.last() == ops[n - 1]);
    if n > 1 {
        lemma_game_stays_stored(store, ops, id, game, payload, plies, n - 1);
        assert(planned(ops[n - 1], id, game, positions(plies)));
        assert(ops[n - 1].keyspace == Keyspace::Master);
    }
}

/// Where an import stands.
#[derive(Clone, Copy, Debug, PartialEq, Eq, Structural)]
pub enum ImportState {
    /// Nothing has been done.
    Idle,
    /// The game is being checked.
    Validating,
    /// The game was refused. The import is over.
    Reject,
    /// The writes of the game are with the store.
    Writing,
    /// The game is stored. The import is over.
    Committed,
}

/// What the caller is to do next for an import.
#[derive(Debug)]
pub enum ImportAction {
    /// Ask the store whether a master game is stored under the identifier,
    /// and answer with `game_looked_up`.
    LookUpGame(GameId),
    /// Ask the store whether an entry is stored under the key, and answer
    /// with `entry_looked_up`.
    LookUpEntry(Vec<u8>),
    /// Have the store perform the writes in one piece, and answer with
    /// `written`.
    Write(Vec<WriteOp>),
    /// Answer the request: the import is over.
    Finish(Result<(), Error>),
}

impl ImportAction {
    /// Whether the action ends the import with the given result.
    pub open spec fn finishes(self, result: Result<(), Error>) -> bool {
        self matches ImportAction::Finish(r) && r == result
    }

    /// Whether the action asks for the game with the given identifier.
    pub open spec fn looks_up_game(self, id: GameId) -> bool {
        self matches ImportAction::LookUpGame(asked) && asked == id
    }

    /// Whether the action asks for the entry under the given key.
    pub open spec fn looks_up_entry(self, key: Seq<u8>) -> bool {
        self matches ImportAction::LookUpEntry(asked) && asked@ == key
    }

    /// Whether the action hands over the writes of the game.
    pub open spec fn writes(
        self,
        id: nat,
        game: MasterGame,
        payload: Seq<u8>,
        plies: Seq<Ply>,
    ) -> bool {
        self matches ImportAction::Write(ops) && is_batch(op_views(ops@), id, game, payload, plies)
    }
}

/// The import of one game. The caller holds the lock of the importer from
/// the first step to the last, so that no other import runs between the
/// look-ups and the writes.
#[derive(Debug)]
pub struct Import {
    state: ImportState,
    id: GameId,
    game: MasterGame,
    payload: Vec<u8>,
    plies: Vec<Ply>,
    replayed: bool,
}

impl Import {
    /// Where the import stands.
    pub closed spec fn state(&self) -> ImportState {
        self.state
    }

    /// The identifier of the game.
    pub closed spec fn id(&self) -> GameId {
        self.id
    }

    /// The game.
    pub closed spec fn game(&self) -> MasterGame {
        self.game
    }

    /// The bytes to store for the game.
    pub closed spec fn payload(&self) -> Seq<u8> {
        self.payload@
    }

    /// The moves of the game as they were replayed.
    pub closed spec fn plies(&self) -> Seq<Ply> {
        self.plies@
    }

    /// Whether the game has been replayed.
    pub closed spec fn replayed(&self) -> bool {
        self.replayed
    }

    /// The identifier is well formed, and so are the moves that were
    /// replayed.
    pub closed spec fn wf(&self) -> bool {
        &&& self.id.wf()
        &&& forall|i: int| 0 <= i < self.plies@.len() ==> (#[trigger] self.plies@[i]).uci.wf()
        &&& !self.replayed ==> self.plies@.len() == 0
        &&& self.state == ImportState::Idle ==> !self.replayed
    }

    /// An import that has not started.
    pub fn new(id: GameId, game: MasterGame, payload: Vec<u8>) -> (import: Import)
        requires
            id.wf(),
        ensures
            import.wf(),
            import.state() == ImportState::Idle,
            import.id() == id,
            import.game() == game,
            import.payload() == payload@,
            !import.replayed(),
    {
        Import { state: ImportState::Idle, id, game, payload, plies: Vec::new(), replayed: false }
    }

    /// Where the import stands.
    pub fn current(&self) -> (state: ImportState)
        ensures
            state == self.state(),
    {
        self.state
    }

    /// The first step: the game is refused if its players are rated too low
    /// on average; else the store is to be asked for the game.
    pub fn begin(&mut self) -> (action: ImportAction)
        requires
            old(self).wf(),
            old(self).state() == ImportState::Idle,
        ensures
            final(self).wf(),
            final(self).id() == old(self).id(),
            final(self).game() == old(self).game(),
            final(self).payload() == old(self).payload(),
            !final(self).replayed(),
            rated_too_low(old(self).game().white_rating, old(self).game().black_rating) ==> final(self).state() == ImportState::Reject,
            rated_too_low(old(self).game().white_rating, old(self).game().black_rating)
                ==> action.finishes(Err(Error::RejectedImport(old(self).id()))),
            !rated_too_low(old(self).game().white_rating, old(self).game().black_rating) ==> final(self).state() == ImportState::Validating,
            !rated_too_low(old(self).game().white_rating, old(self).game().black_rating)
                ==> action.looks_up_game(old(self).id()),
    {
        self.state = ImportState::Validating;
        match check_rating(self.id, self.game.white_rating, self.game.black_rating) {
            Err(e) => {
                self.state = ImportState::Reject;
                ImportAction::Finish(Err(e))
            },
            Ok(()) => ImportAction::LookUpGame(self.id),
        }
    }

    /// Whether the import stands, and the action is, as the step after the
    /// look-up of a game that is not stored leaves them, by what the replay
    /// of the game gives. A game that cannot be replayed is refused; for a
    /// game without moves the writes are due; for any other the store is to
    /// be asked for the entry of the position in which the last move was
    /// played.
    pub open spec fn after_replay(
        self,
        action: ImportAction,
        id: GameId,
        game: MasterGame,
        payload: Seq<u8>,
        outcome: Option<Seq<Ply>>,
    ) -> bool {
        match outcome {
            None => self.state() == ImportState::Reject && action.finishes(
                Err(Error::InvalidPosition),
            ),
            Some(plies) => self.replayed() && self.plies() == plies && if plies.len() == 0 {
                self.state() == ImportState::Writing && action.writes(id@, game, payload, plies)
            } else {
                self.state() == ImportState::Validating && action.looks_up_entry(
                    position_key_bytes(game, plies.last().hash),
                )
            },
        }
    }

    /// The step after the look-up of the game. A game that is stored is
    /// refused. Else the game is replayed from the starting position: a game
    /// with a move that is out of range or cannot be played is refused; for a
    /// game without moves the writes are due; for any other the store is to
    /// be asked for the entry of the position in which the last move was
    /// played.
    pub fn game_looked_up(&mut self, stored: bool) -> (action: ImportAction)
        requires
            old(self).wf(),
            old(self).state() == ImportState::Validating,
            !old(self).replayed(),
        ensures
            final(self).wf(),
            final(self).id() == old(self).id(),
            final(self).game() == old(self).game(),
            final(self).payload() == old(self).payload(),
            stored ==> final(self).state() == ImportState::Reject,
            stored ==> action.finishes(Err(Error::DuplicateGame(old(self).id()))),
            !stored ==> exists|start: shakmaty::Chess|
                is_start(start) && final(self).after_replay(
                    action,
                    old(self).id(),
                    old(self).game(),
                    old(self).payload(),
                    #[trigger] replayed_from(start, old(self).game().moves@),
                ),
            !stored && (exists|i: int|
                0 <= i < old(self).game().moves@.len() && !(#[trigger] old(self).game().moves@[i]).wf())
                ==> final(self).state() == ImportState::Reject && action.finishes(
                Err(Error::InvalidPosition),
            ),
    {
        match check_new(self.id, stored) {
            Err(e) => {
                self.state = ImportState::Reject;
                return ImportAction::Finish(Err(e));
            },
            Ok(()) => {},
        }
        let replayed = replay(&self.game.moves);
        let ghost start = choose|start: shakmaty::Chess|
            is_start(start) && match replayed {
                Ok(plies) => #[trigger] replayed_from(start, self.game.moves@) == Some(plies@),
                Err(_) => replayed_from(start, self.game.moves@) is None,
            };
        let action = match replayed {
            Err(e) => {
                self.state = ImportState::Reject;
                ImportAction::Finish(Err(e))
            },
            Ok(plies) => {
                self.plies = plies;
                self.replayed = true;
                match final_key(&self.plies, self.game.year) {
                    Some(key) => ImportAction::LookUpEntry(key.into_bytes()),
                    None => {
                        self.state = ImportState::Writing;
                        ImportAction::Write(
                            plan_batch(
                                self.id,
                                &self.game,
                                slice_to_vec(self.payload.as_slice()),
                                &self.plies,
                            ),
                        )
                    },
                }
            },
        };
        proof {
            assert(is_start(start) && self.after_replay(
                action,
                old(self).id(),
                old(self).game(),
                old(self).payload(),
                replayed_from(start, old(self).game().moves@),
            ));
        }
        action
    }

    /// The step after the look-up of the entry. Where an entry is stored
    /// for the position in which the last move was played, the game is taken
    /// for known and refused. Else the writes are due.
    pub fn entry_looked_up(&mut self, stored: bool) -> (action: ImportAction)
        requires
            old(self).wf(),
            old(self).state() == ImportState::Validating,
            old(self).replayed(),
        ensures
            final(self).wf(),
            final(self).id() == old(self).id(),
            final(self).game() == old(self).game(),
            final(self).payload() == old(self).payload(),
            final(self).plies() == old(self).plies(),
            stored ==> final(self).state() == ImportState::Reject,
            stored ==> action.finishes(Err(Error::DuplicateGame(old(self).id()))),
            !stored ==> final(self).state() == ImportState::Writing,
            !stored ==> action.writes(
                old(self).id()@,
                old(self).game(),
                old(self).payload(),
                old(self).plies(),
            ),
    {
        match check_new(self.id, stored) {
            Err(e) => {
                self.state = ImportState::Reject;
                ImportAction::Finish(Err(e))
            },
            Ok(()) => {
                self.state = ImportState::Writing;
                ImportAction::Write(
                    plan_batch(
                        self.id,
                        &self.game,
                        slice_to_vec(self.payload.as_slice()),
                        &self.plies,
                    ),
                )
            },
        }
    }

    /// The step after the writes: the game is stored.
    pub fn written(&mut self) -> (action: ImportAction)
        requires
            old(self).wf(),
            old(self).state() == ImportState::Writing,
        ensures
            final(self).wf(),
            final(self).state() == ImportState::Committed,
            action.finishes(Ok(())),
    {
        self.state = ImportState::Committed;
        ImportAction::Finish(Ok(()))
    }
}

} // verus!
