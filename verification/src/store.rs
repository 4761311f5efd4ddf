//! A model of the store: what it holds after writes, and what a scan of it
//! returns. Over the model stand the properties of an import that is
//! followed by a query.

use vstd::prelude::*;
use crate::db::{
    all_master, decoded_master, games_among, group_total, lemma_master_fold_unique,
    master_fold, master_is_fold, master_merge_result, Keyspace, WriteKind, WriteOpView,
};
use crate::importer::{
    is_batch, merged_value, performed, planned, position_key_bytes, position_value,
    position_write, positions, rating_of, MasterGame, Ply, PlyMove, StoreContents,
};
use crate::api::{
    game_ranks, good_top_game, is_legal, legal_ranks, legal_total, move_rank, row_from,
    row_ranks, top_rank, top_ranks, LegalMove, MoveRow, TopGame,
};
use crate::model::assoc::{has_key, keys_of};
use crate::model::basic::Variant;
use crate::model::game_id::GAME_ID_LIMIT;
use crate::model::key::{master_key_bytes, master_prefix_bytes, MasterPrefixView};
use crate::model::master::{
    lemma_group_wf, lemma_master_roundtrip, master_encoding, master_from_bytes, master_rank,
    mean_rating, single_master, valid_master_rank, MasterView, MAX_MASTER_GAMES,
};
use crate::model::range::{in_range, lemma_master_scan, lex_lt, lex_witness, upper_bound};
use crate::model::reader::DecodeError;
use crate::model::stats::Stats;
use crate::model::top::{is_top, lemma_largest_is_top};
use crate::model::uci::UciMove;
use crate::model::year::year_offset;

verus! {

/// A place of the store: a key of a keyspace.
pub type Place = (Keyspace, Seq<u8>);

/// Whether no write of the list goes to the place.
pub open spec fn untouched(ops: Seq<WriteOpView>, place: Place) -> bool {
    forall|i: int| 0 <= i < ops.len() ==> ((#[trigger] ops[i]).keyspace, ops[i].key) != place
}

/// Writes leave alone the places that they do not go to.
pub proof fn lemma_performed_elsewhere(store: StoreContents, ops: Seq<WriteOpView>, place: Place)
    requires
        untouched(ops, place),
    ensures
        performed(store, ops).contains_key(place) == store.contains_key(place),
        store.contains_key(place) ==> performed(store, ops)[place] == store[place],
    decreases ops.len(),
{
    if ops.len() > 0 {
        let init = ops.drop_last();
        assert forall|i: int| 0 <= i < init.len() implies ((#[trigger] init[i]).keyspace, init[i].key)
            != place by {
            assert(init[i] == ops[i]);
        }
        lemma_performed_elsewhere(store, init, place);
        assert((ops[ops.len() - 1].keyspace, ops[ops.len() - 1].key) != place);
    }
}

/// What the store holds was there before or was written.
pub proof fn lemma_performed_places(store: StoreContents, ops: Seq<WriteOpView>, place: Place)
    requires
        performed(store, ops).contains_key(place),
    ensures
        store.contains_key(place) || exists|i: int|
            0 <= i < ops.len() && ((#[trigger] ops[i]).keyspace, ops[i].key) == place,
{
    if !store.contains_key(place) && untouched(ops, place) {
        lemma_performed_elsewhere(store, ops, place);
    }
}

/// A value that is folded once into a place that held nothing is stored
/// as the fold of that value alone.
pub proof fn lemma_performed_once(store: StoreContents, ops: Seq<WriteOpView>, j: int)
    requires
        0 <= j < ops.len(),
        ops[j].kind == WriteKind::Merge,
        forall|i: int|
            0 <= i < ops.len() && i != j ==> ((#[trigger] ops[i]).keyspace, ops[i].key) != (
                ops[j].keyspace,
                ops[j].key,
            ),
        !store.contains_key((ops[j].keyspace, ops[j].key)),
    ensures
        performed(store, ops).contains_key((ops[j].keyspace, ops[j].key)),
        performed(store, ops)[(ops[j].keyspace, ops[j].key)] == merged_value(
            ops[j].keyspace,
            None,
            ops[j].value,
        ),
    decreases ops.len(),
{
    let place = (ops[j].keyspace, ops[j].key);
    let init = ops.drop_last();
    if j == ops.len() - 1 {
        assert forall|i: int| 0 <= i < init.len() implies ((#[trigger] init[i]).keyspace, init[i].key)
            != place by {
            assert(init[i] == ops[i]);
        }
        lemma_performed_elsewhere(store, init, place);
    } else {
        assert(init[j] == ops[j]);
        assert forall|i: int| 0 <= i < init.len() && i != j implies (
            (#[trigger] init[i]).keyspace,
            init[i].key,
        ) != (init[j].keyspace, init[j].key) by {
            assert(init[i] == ops[i]);
        }
        lemma_performed_once(store, init, j);
        assert((ops[ops.len() - 1].keyspace, ops[ops.len() - 1].key) != place);
    }
}

/// The entry of one game is well formed.
pub proof fn lemma_single_master_wf(
    uci: UciMove,
    id: nat,
    winner: Option<crate::model::basic::Color>,
    mover_rating: u16,
    opponent_rating: u16,
    year: u8,
)
    requires
        uci.wf(),
        id < GAME_ID_LIMIT,
    ensures
        single_master(uci, id, winner, mover_rating, opponent_rating, year).wf(),
{
    let v = single_master(uci, id, winner, mover_rating, opponent_rating, year);
    let key = uci.code() as u128;
    let mean = mean_rating(mover_rating, opponent_rating);
    let rank = master_rank(mean, year, id);
    UciMove::lemma_code_roundtrip(uci);
    assert(keys_of(v.groups) =~= seq![key]);
    let sort = (mean * 256 + year) as int;
    assert(rank == sort * 0x1_0000_0000_0000 + id);
    assert(rank / 0x1_0000_0000_0000 == sort && rank % 0x1_0000_0000_0000 == id)
        by (nonlinear_arith)
        requires
            rank == sort * 0x1_0000_0000_0000 + id,
            0 <= id < 0x1_0000_0000_0000,
            0 <= sort,
    ;
    assert(valid_master_rank(rank));
    assert(v.groups[0].1.wf());
}

/// The fold of one entry is the entry.
pub proof fn lemma_master_fold_one(v: MasterView)
    requires
        v.wf(),
    ensures
        master_is_fold(v, seq![v]),
        master_fold(seq![v]) == v,
{
    let one = seq![v];
    let cap = MAX_MASTER_GAMES as nat;
    assert(one.drop_last() =~= Seq::<MasterView>::empty());
    assert(one.last() == v);
    assert forall|k: u128| #[trigger]
        has_key(v.groups, k) <==> exists|i: int|
            0 <= i < one.len() && has_key(#[trigger] one[i].groups, k) by {
        if has_key(v.groups, k) {
            assert(has_key(one[0].groups, k));
        }
    }
    assert forall|k: u128| #[trigger] v.group(k).stats == group_total(one, k) by {
        assert(group_total(one.drop_last(), k) == Stats::zero());
        Stats::lemma_plus_laws(v.group(k).stats, Stats::zero(), Stats::zero());
    }
    assert forall|k: u128| is_top(#[trigger] v.group(k).games, games_among(one, k), cap) by {
        lemma_group_wf(v, k);
        let games = v.group(k).games;
        lemma_largest_is_top(games, cap);
        assert(games_among(one, k) =~= Set::new(|x: u128| games.contains(x))) by {
            assert forall|x: u128| games_among(one, k).contains(x) <==> games.contains(x) by {
                if games.contains(x) {
                    assert(one[0].group(k).games.contains(x));
                }
            }
        }
    }
    lemma_master_fold_unique(v, one);
}

/// An entry is read back from its bytes, and its bytes folded alone are
/// its bytes.
pub proof fn lemma_master_alone(v: MasterView)
    requires
        v.wf(),
        v.groups.len() <= u64::MAX,
    ensures
        master_from_bytes(master_encoding(v)) == Ok::<_, DecodeError>(v),
        master_merge_result(seq![master_encoding(v)]) == master_encoding(v),
{
    let bytes = master_encoding(v);
    lemma_master_roundtrip(v, Seq::empty());
    assert(bytes + Seq::<u8>::empty() =~= bytes);
    let ops = seq![bytes];
    assert(all_master(ops));
    assert(decoded_master(ops) =~= seq![v]);
    lemma_master_fold_one(v);
}

/// The entry that the import of a game writes for a position.
pub open spec fn imported_entry(id: nat, game: MasterGame, played: PlyMove) -> MasterView {
    single_master(
        played.uci,
        id,
        game.winner,
        rating_of(game, played.turn),
        rating_of(game, played.turn.other()),
        year_offset(game.year as nat) as u8,
    )
}

/// A place of the master keyspace.
pub open spec fn master_place(key: Seq<u8>) -> Place {
    (Keyspace::Master, key)
}

/// After the import of a game into a store that holds nothing under the
/// key of one of its positions, the store holds there the entry of that
/// game alone: the move that was played in the position, counted once, with
/// the pointer to the game.
pub proof fn lemma_imported_position(
    store: StoreContents,
    ops: Seq<WriteOpView>,
    id: nat,
    game: MasterGame,
    payload: Seq<u8>,
    plies: Seq<Ply>,
    hash: u128,
)
    requires
        is_batch(ops, id, game, payload, plies),
        positions(plies).contains_key(hash),
        positions(plies)[hash].uci.wf(),
        id < GAME_ID_LIMIT,
        !store.contains_key(master_place(position_key_bytes(game, hash))),
    ensures
        performed(store, ops).contains_key(master_place(position_key_bytes(game, hash))),
        performed(store, ops)[master_place(position_key_bytes(game, hash))] == master_encoding(
            imported_entry(id, game, positions(plies)[hash]),
        ),
        master_from_bytes(
            performed(store, ops)[master_place(position_key_bytes(game, hash))],
        ) == Ok::<_, DecodeError>(imported_entry(id, game, positions(plies)[hash])),
{
    let played = positions(plies)[hash];
    let entry = imported_entry(id, game, played);
    let write = position_write(id, game, hash, played);
    let j = choose|j: int| 1 <= j < ops.len() && #[trigger] ops[j] == write;
    assert forall|i: int| 0 <= i < ops.len() && i != j implies ((#[trigger] ops[i]).keyspace, ops[i].key)
        != (ops[j].keyspace, ops[j].key) by {
        if i == 0 {
            assert(ops[0].keyspace == Keyspace::MasterGame);
        } else if i < j {
            assert(ops[i].key != ops[j].key);
        } else {
            assert(ops[j].key != ops[i].key);
        }
    }
    lemma_performed_once(store, ops, j);
    reveal(position_value);
    lemma_single_master_wf(
        played.uci,
        id,
        game.winner,
        rating_of(game, played.turn),
        rating_of(game, played.turn.other()),
        year_offset(game.year as nat) as u8,
    );
    lemma_master_alone(entry);
}

/// Whether the values are what a scan returns with the keys: the keys are
/// the stored keys of the keyspace that lie in the range, in the order of
/// the store, and each value is what is stored under its key.
pub open spec fn scans(
    keys: Seq<Seq<u8>>,
    values: Seq<Seq<u8>>,
    store: StoreContents,
    keyspace: Keyspace,
    from: Seq<u8>,
    upper: Seq<u8>,
) -> bool {
    &&& keys.len() == values.len()
    &&& forall|i: int, j: int| 0 <= i < j < keys.len() ==> lex_lt(#[trigger] keys[i], #[trigger] keys[j])
    &&& forall|i: int|
        0 <= i < keys.len() ==> store.contains_key((keyspace, #[trigger] keys[i])) && in_range(
            from,
            upper,
            keys[i],
        ) && values[i] == store[(keyspace, keys[i])]
    &&& forall|k: Seq<u8>|
        #[trigger] store.contains_key((keyspace, k)) && in_range(from, upper, k) ==> keys.contains(
            k,
        )
}

/// Whether the values are what a scan of the range returns.
pub open spec fn is_scan(
    values: Seq<Seq<u8>>,
    store: StoreContents,
    keyspace: Keyspace,
    from: Seq<u8>,
    upper: Seq<u8>,
) -> bool {
    exists|keys: Seq<Seq<u8>>| scans(keys, values, store, keyspace, from, upper)
}

/// A scan of a range in which one key is stored returns the value under
/// that key, and nothing else.
pub proof fn lemma_scan_of_one_key(
    values: Seq<Seq<u8>>,
    store: StoreContents,
    keyspace: Keyspace,
    from: Seq<u8>,
    upper: Seq<u8>,
    key: Seq<u8>,
)
    requires
        is_scan(values, store, keyspace, from, upper),
        store.contains_key((keyspace, key)),
        in_range(from, upper, key),
        forall|k: Seq<u8>|
            #[trigger] store.contains_key((keyspace, k)) && in_range(from, upper, k) ==> k == key,
    ensures
        values == seq![store[(keyspace, key)]],
{
    let keys = choose|keys: Seq<Seq<u8>>| scans(keys, values, store, keyspace, from, upper);
    assert(keys.contains(key));
    assert forall|i: int| 0 <= i < keys.len() implies #[trigger] keys[i] == key by {
        assert(store.contains_key((keyspace, keys[i])));
    }
    if keys.len() >= 2 {
        assert(lex_lt(keys[0], keys[1]));
        assert(forall|k: int| !lex_witness(key, key, k));
    }
    assert(values =~= seq![store[(keyspace, key)]]);
}

/// A scan of a range in which no key is stored returns nothing.
pub proof fn lemma_scan_of_no_key(
    values: Seq<Seq<u8>>,
    store: StoreContents,
    keyspace: Keyspace,
    from: Seq<u8>,
    upper: Seq<u8>,
)
    requires
        is_scan(values, store, keyspace, from, upper),
        forall|k: Seq<u8>| #[trigger] store.contains_key((keyspace, k)) ==> !in_range(from, upper, k),
    ensures
        values == Seq::<Seq<u8>>::empty(),
{
    let keys = choose|keys: Seq<Seq<u8>>| scans(keys, values, store, keyspace, from, upper);
    if keys.len() > 0 {
        assert(store.contains_key((keyspace, keys[0])));
    }
    assert(values =~= Seq::<Seq<u8>>::empty());
}

/// The prefix of the keys of a position of the master corpus.
pub open spec fn position_prefix(hash: u128) -> MasterPrefixView {
    MasterPrefixView { variant: Variant::Chess, hash }
}

/// What the master keyspace holds after the import of a game into an empty
/// store lies under the keys of the positions of the game, in the year of
/// the game.
pub proof fn lemma_imported_places(
    ops: Seq<WriteOpView>,
    id: nat,
    game: MasterGame,
    payload: Seq<u8>,
    plies: Seq<Ply>,
    key: Seq<u8>,
)
    requires
        is_batch(ops, id, game, payload, plies),
        exists|i: int|
            0 <= i < ops.len() && ((#[trigger] ops[i]).keyspace, ops[i].key) == master_place(key),
    ensures
        exists|hash: u128|
            positions(plies).contains_key(hash) && key == #[trigger] position_key_bytes(game, hash),
{
    let i = choose|i: int|
        0 <= i < ops.len() && ((#[trigger] ops[i]).keyspace, ops[i].key) == master_place(key);
    assert(i != 0);
    assert(planned(ops[i], id, game, positions(plies)));
    let hash = choose|hash: u128|
        positions(plies).contains_key(hash) && ops[i] == position_write(
            id,
            game,
            hash,
            positions(plies)[hash],
        );
    assert(key == position_key_bytes(game, hash));
}

/// A query after an import: where a game is imported into a store whose
/// master keyspace holds nothing in the range of the query, and the years of
/// the query hold the year of the game, the scan of the query for a position
/// of the game returns the entry of that game alone, and the fold of what
/// the scan returns is that entry: the move that was played in the position,
/// counted once, with the pointer to the game.
pub proof fn lemma_query_after_import(
    before: StoreContents,
    ops: Seq<WriteOpView>,
    id: nat,
    game: MasterGame,
    payload: Seq<u8>,
    plies: Seq<Ply>,
    hash: u128,
    since: u8,
    until: u8,
    values: Seq<Seq<u8>>,
)
    requires
        is_batch(ops, id, game, payload, plies),
        positions(plies).contains_key(hash),
        positions(plies)[hash].uci.wf(),
        id < GAME_ID_LIMIT,
        since <= year_offset(game.year as nat) <= until,
        forall|k: Seq<u8>|
            #[trigger] before.contains_key(master_place(k)) ==> !in_range(
                master_key_bytes(position_prefix(hash), since as nat),
                upper_bound(master_prefix_bytes(position_prefix(hash)), until as nat),
                k,
            ),
        is_scan(
            values,
            performed(before, ops),
            Keyspace::Master,
            master_key_bytes(position_prefix(hash), since as nat),
            upper_bound(master_prefix_bytes(position_prefix(hash)), until as nat),
        ),
    ensures
        values == seq![master_encoding(imported_entry(id, game, positions(plies)[hash]))],
        master_fold(decoded_master(values)) == imported_entry(id, game, positions(plies)[hash]),
        imported_entry(id, game, positions(plies)[hash]).wf(),
{
    let store = performed(before, ops);
    let from = master_key_bytes(position_prefix(hash), since as nat);
    let upper = upper_bound(master_prefix_bytes(position_prefix(hash)), until as nat);
    let key = position_key_bytes(game, hash);
    let year = year_offset(game.year as nat) as u8;
    let entry = imported_entry(id, game, positions(plies)[hash]);
    lemma_master_scan(position_prefix(hash), since, until, position_prefix(hash), year);
    assert(in_range(from, upper, key));
    assert(!before.contains_key(master_place(key)));
    lemma_imported_position(before, ops, id, game, payload, plies, hash);
    assert forall|k: Seq<u8>|
        #[trigger] store.contains_key((Keyspace::Master, k)) && in_range(
            from,
            upper,
            k,
        ) implies k == key by {
        lemma_performed_places(before, ops, master_place(k));
        if !before.contains_key(master_place(k)) {
            lemma_imported_places(ops, id, game, payload, plies, k);
            let h = choose|h: u128|
                positions(plies).contains_key(h) && k == #[trigger] position_key_bytes(game, h);
            lemma_master_scan(position_prefix(hash), since, until, position_prefix(h), year);
        }
    }
    lemma_scan_of_one_key(values, store, Keyspace::Master, from, upper, key);
    lemma_single_master_wf(
        positions(plies)[hash].uci,
        id,
        game.winner,
        rating_of(game, positions(plies)[hash].turn),
        rating_of(game, positions(plies)[hash].turn.other()),
        year,
    );
    lemma_master_alone(entry);
    assert(decoded_master(values) =~= seq![entry]);
    lemma_master_fold_one(entry);
}

/// A query after the first import: where a game is imported into an empty
/// store, a query for a position of the game, over years that hold the year
/// of the game, finds the entry of that game alone.
pub proof fn lemma_query_after_first_import(
    ops: Seq<WriteOpView>,
    id: nat,
    game: MasterGame,
    payload: Seq<u8>,
    plies: Seq<Ply>,
    hash: u128,
    since: u8,
    until: u8,
    values: Seq<Seq<u8>>,
)
    requires
        is_batch(ops, id, game, payload, plies),
        positions(plies).contains_key(hash),
        positions(plies)[hash].uci.wf(),
        id < GAME_ID_LIMIT,
        since <= year_offset(game.year as nat) <= until,
        is_scan(
            values,
            performed(Map::empty(), ops),
            Keyspace::Master,
            master_key_bytes(position_prefix(hash), since as nat),
            upper_bound(master_prefix_bytes(position_prefix(hash)), until as nat),
        ),
    ensures
        values == seq![master_encoding(imported_entry(id, game, positions(plies)[hash]))],
        master_fold(decoded_master(values)) == imported_entry(id, game, positions(plies)[hash]),
{
    lemma_query_after_import(Map::empty(), ops, id, game, payload, plies, hash, since, until, values);
}

/// A query for the years of the later of two games: where two games that
/// pass through one position are imported into an empty store, and the
/// years of the query hold the year of the second game but not that of the
/// first, the scan of the query returns the entry of the second game alone.
/// The first game adds to no counter of the answer and is not listed.
pub proof fn lemma_year_filter(
    first_ops: Seq<WriteOpView>,
    first_id: nat,
    first: MasterGame,
    first_payload: Seq<u8>,
    first_plies: Seq<Ply>,
    ops: Seq<WriteOpView>,
    id: nat,
    game: MasterGame,
    payload: Seq<u8>,
    plies: Seq<Ply>,
    hash: u128,
    since: u8,
    until: u8,
    values: Seq<Seq<u8>>,
)
    requires
        is_batch(first_ops, first_id, first, first_payload, first_plies),
        is_batch(ops, id, game, payload, plies),
        positions(plies).contains_key(hash),
        positions(plies)[hash].uci.wf(),
        id < GAME_ID_LIMIT,
        since <= year_offset(game.year as nat) <= until,
        !(since <= year_offset(first.year as nat) <= until),
        is_scan(
            values,
            performed(performed(Map::empty(), first_ops), ops),
            Keyspace::Master,
            master_key_bytes(position_prefix(hash), since as nat),
            upper_bound(master_prefix_bytes(position_prefix(hash)), until as nat),
        ),
    ensures
        values == seq![master_encoding(imported_entry(id, game, positions(plies)[hash]))],
        master_fold(decoded_master(values)) == imported_entry(id, game, positions(plies)[hash]),
{
    let empty: StoreContents = Map::empty();
    let before = performed(empty, first_ops);
    let from = master_key_bytes(position_prefix(hash), since as nat);
    let upper = upper_bound(master_prefix_bytes(position_prefix(hash)), until as nat);
    let first_year = year_offset(first.year as nat) as u8;
    assert forall|k: Seq<u8>| #[trigger] before.contains_key(master_place(k)) implies !in_range(
        from,
        upper,
        k,
    ) by {
        lemma_performed_places(empty, first_ops, master_place(k));
        lemma_imported_places(first_ops, first_id, first, first_payload, first_plies, k);
        let h = choose|h: u128|
            positions(first_plies).contains_key(h) && k == #[trigger] position_key_bytes(first, h);
        lemma_master_scan(position_prefix(hash), since, until, position_prefix(h), first_year);
    }
    lemma_query_after_import(before, ops, id, game, payload, plies, hash, since, until, values);
}

/// The largest of one element, where at least one is asked for, is that
/// element.
pub proof fn lemma_top_of_one(result: Seq<u128>, s: Set<u128>, x: u128, cap: nat)
    requires
        is_top(result, s, cap),
        cap >= 1,
        forall|y: u128| s.contains(y) <==> y == x,
    ensures
        result == seq![x],
{
    if !result.contains(x) {
        assert(s.contains(x));
        assert(result.len() == cap);
        assert(result.contains(result[0]));
        assert(s.contains(result[0]));
    }
    assert forall|i: int| 0 <= i < result.len() implies #[trigger] result[i] == x by {
        assert(result.contains(result[i]));
        assert(s.contains(result[i]));
    }
    if result.len() >= 2 {
        assert(result[0] < result[1]);
    }
    assert(result =~= seq![x]);
}

/// The answer for an entry of one move: where the move is legal and at
/// least one move is asked for, the answer holds one row, for that move with
/// its counters, and the total is the counters of that move.
pub proof fn lemma_rows_of_one_move(
    rows: Seq<MoveRow>,
    uci: UciMove,
    stats: Stats,
    legal: Seq<LegalMove>,
    limit: nat,
)
    requires
        is_legal(legal, uci.code()),
        limit >= 1,
        is_top(row_ranks(rows).reverse(), legal_ranks(seq![(uci, stats)], legal), limit),
        forall|j: int| 0 <= j < rows.len() ==> row_from(#[trigger] rows[j], seq![(uci, stats)], legal),
    ensures
        rows.len() == 1,
        rows[0].uci == uci,
        rows[0].stats == stats,
        legal_total(seq![(uci, stats)], legal) == stats,
{
    let moves = seq![(uci, stats)];
    let rank = move_rank(stats, uci.code());
    let ranks = legal_ranks(moves, legal);
    assert forall|y: u128| ranks.contains(y) <==> y == rank by {
        if y == rank {
            assert(is_legal(legal, moves[0].0.code()) && y == move_rank(moves[0].1, moves[0].0.code()));
        }
    }
    lemma_top_of_one(row_ranks(rows).reverse(), ranks, rank, limit);
    assert(row_ranks(rows).len() == row_ranks(rows).reverse().len());
    assert(row_from(rows[0], moves, legal));
    assert(moves.drop_last() =~= Seq::<(UciMove, Stats)>::empty());
    assert(legal_total(moves.drop_last(), legal) == Stats::zero());
    Stats::lemma_plus_laws(stats, Stats::zero(), Stats::zero());
}

/// The top games of the entry of one game: where at least one game is asked
/// for, the answer lists that game, with the move that was played in it,
/// and no other.
pub proof fn lemma_top_games_of_one_game(
    games: Seq<TopGame>,
    uci: UciMove,
    id: nat,
    winner: Option<crate::model::basic::Color>,
    mover_rating: u16,
    opponent_rating: u16,
    year: u8,
    limit: nat,
)
    requires
        uci.wf(),
        id < GAME_ID_LIMIT,
        limit >= 1,
        is_top(
            top_ranks(games).reverse(),
            game_ranks(single_master(uci, id, winner, mover_rating, opponent_rating, year)),
            limit,
        ),
        forall|j: int| 0 <= j < games.len() ==> good_top_game(#[trigger] games[j], top_ranks(games)[j]),
    ensures
        games.len() == 1,
        games[0].uci == uci,
        games[0].id@ == id,
{
    let entry = single_master(uci, id, winner, mover_rating, opponent_rating, year);
    let game = master_rank(mean_rating(mover_rating, opponent_rating), year, id);
    let rank = top_rank(game, uci.code());
    lemma_single_master_wf(uci, id, winner, mover_rating, opponent_rating, year);
    UciMove::lemma_code_roundtrip(uci);
    assert forall|y: u128| game_ranks(entry).contains(y) <==> y == rank by {
        if y == rank {
            assert(y == top_rank(entry.groups[0].1.games[0], entry.groups[0].0 as u16));
        }
    }
    lemma_top_of_one(top_ranks(games).reverse(), game_ranks(entry), rank, limit);
    assert(top_ranks(games).len() == top_ranks(games).reverse().len());
    assert(top_ranks(games)[0] == top_ranks(games).reverse()[0]);
    assert(good_top_game(games[0], top_ranks(games)[0]));
    assert(valid_master_rank(game));
    lemma_rank_of_top(games[0].rank, games[0].uci.code(), game, uci.code());
    games[0].uci.lemma_code_roundtrip();
}

/// A place among the top games is made of one rank and one code only.
proof fn lemma_rank_of_top(first: u128, first_code: u16, second: u128, second_code: u16)
    requires
        valid_master_rank(first),
        valid_master_rank(second),
        top_rank(first, first_code) == top_rank(second, second_code),
    ensures
        first == second,
        first_code == second_code,
{
    assert(first < 0x1_0000_0000_0000_0000_0000) by {
        assert(first == (first / 0x1_0000_0000_0000) * 0x1_0000_0000_0000 + first
            % 0x1_0000_0000_0000);
    }
    assert(second < 0x1_0000_0000_0000_0000_0000) by {
        assert(second == (second / 0x1_0000_0000_0000) * 0x1_0000_0000_0000 + second
            % 0x1_0000_0000_0000);
    }
}

} // verus!
