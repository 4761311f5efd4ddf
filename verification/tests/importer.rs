use opening_explorer::api::Error;
use opening_explorer::db::{Keyspace, WriteKind};
use opening_explorer::chess::notation;
use opening_explorer::importer::{
    check_new, check_rating, final_key, plan_batch, position_key, replay, replay_from, Import,
    ImportAction, ImportState, MasterGame, Ply, MIN_AVERAGE_RATING,
};
use opening_explorer::model::basic::{Color, Variant};
use opening_explorer::model::game_id::GameId;
use opening_explorer::model::key::KeyBuilder;
use opening_explorer::model::master::MasterEntry;
use opening_explorer::model::stats::Stats;
use opening_explorer::model::uci::UciMove;
use opening_explorer::model::year::AnnoLichess;
use shakmaty::zobrist::ZobristHash;
use shakmaty::Position;

fn mv(from: u8, to: u8) -> UciMove {
    UciMove::Normal { from, to, promotion: None }
}

fn id(n: u64) -> GameId {
    GameId::from_u64(n).unwrap()
}

fn game(white: u16, black: u16, moves: Vec<UciMove>) -> MasterGame {
    MasterGame { white_rating: white, black_rating: black, winner: Some(Color::White), year: 2020, moves }
}

fn outside_hash(moves: &[&str]) -> u128 {
    let mut pos = shakmaty::Chess::default();
    for text in moves {
        let uci: shakmaty::uci::Uci = text.parse().unwrap();
        let m = uci.to_move(&pos).unwrap();
        pos.play_unchecked(&m);
    }
    pos.zobrist_hash::<u128>()
}

#[test]
fn games_are_taken_by_the_mean_rating() {
    assert_eq!(MIN_AVERAGE_RATING, 2200);
    assert_eq!(check_rating(id(1), 2200, 2200), Ok(()));
    assert_eq!(check_rating(id(1), 2400, 2000), Ok(()));
    assert_eq!(check_rating(id(1), 2199, 2201), Ok(()));
    assert_eq!(check_rating(id(1), 2201, 2199), Ok(()));
    assert_eq!(check_rating(id(1), 0, 4400), Ok(()));
    assert_eq!(check_rating(id(1), 65535, 65535), Ok(()));
    assert_eq!(check_rating(id(1), 2199, 2200), Err(Error::RejectedImport(id(1))));
    assert_eq!(check_rating(id(2), 2100, 2100), Err(Error::RejectedImport(id(2))));
    assert_eq!(check_rating(id(3), 0, 0), Err(Error::RejectedImport(id(3))));
    assert_eq!(check_rating(id(3), 4399, 0), Err(Error::RejectedImport(id(3))));
}

#[test]
fn stored_games_are_refused() {
    assert_eq!(check_new(id(1), false), Ok(()));
    assert_eq!(check_new(id(1), true), Err(Error::DuplicateGame(id(1))));
}

#[test]
fn replay_gives_each_move_with_its_position() {
    let plies = replay(&vec![mv(12, 28), mv(52, 36), mv(6, 21)]).unwrap();
    assert_eq!(plies.len(), 3);
    assert_eq!(plies[0].hash, outside_hash(&[]));
    assert_eq!(plies[1].hash, outside_hash(&["e2e4"]));
    assert_eq!(plies[2].hash, outside_hash(&["e2e4", "e7e5"]));
    assert_ne!(plies[0].hash, plies[1].hash);
    assert_ne!(plies[1].hash, plies[2].hash);
    assert_eq!(
        plies.iter().map(|ply| ply.turn).collect::<Vec<_>>(),
        vec![Color::White, Color::Black, Color::White]
    );
    assert_eq!(
        plies.iter().map(|ply| ply.uci).collect::<Vec<_>>(),
        vec![mv(12, 28), mv(52, 36), mv(6, 21)]
    );
    assert_eq!(replay(&Vec::new()).unwrap().len(), 0);
}

#[test]
fn replay_names_the_rook_for_castling() {
    let moves =
        vec![mv(12, 28), mv(52, 36), mv(6, 21), mv(57, 42), mv(5, 26), mv(61, 34), mv(4, 6)];
    let plies = replay(&moves).unwrap();
    assert_eq!(plies[6].uci, mv(4, 7));
    assert_eq!(plies[6].turn, Color::White);
    let mut named = moves.clone();
    named[6] = mv(4, 7);
    assert_eq!(replay(&named).unwrap()[6].uci, mv(4, 7));
}

#[test]
fn replay_keeps_promotions() {
    // 1. h4 g5 2. hxg5 h6 3. gxh6 Nf6 4. h7 Rg8 5. hxg8=Q
    let moves = vec![
        mv(15, 31),
        mv(54, 38),
        mv(31, 38),
        mv(55, 47),
        mv(38, 47),
        mv(62, 45),
        mv(47, 55),
        mv(63, 62),
        UciMove::Normal { from: 55, to: 62, promotion: Some(5) },
    ];
    let plies = replay(&moves).unwrap();
    assert_eq!(plies[8].uci, UciMove::Normal { from: 55, to: 62, promotion: Some(5) });
    let mut without = moves.clone();
    without[8] = mv(55, 62);
    assert_eq!(replay(&without).err(), Some(Error::InvalidPosition));
}

#[test]
fn replay_fails_at_a_move_that_cannot_be_played() {
    assert_eq!(replay(&vec![mv(12, 36)]).err(), Some(Error::InvalidPosition));
    assert_eq!(replay(&vec![mv(12, 28), mv(12, 28)]).err(), Some(Error::InvalidPosition));
    assert_eq!(replay(&vec![UciMove::Null]).err(), Some(Error::InvalidPosition));
    assert_eq!(replay(&vec![UciMove::Put { role: 2, to: 20 }]).err(), Some(Error::InvalidPosition));
    assert_eq!(
        replay(&vec![UciMove::Normal { from: 64, to: 0, promotion: None }]).err(),
        Some(Error::InvalidPosition)
    );
    assert_eq!(
        replay(&vec![mv(12, 28), UciMove::Put { role: 0, to: 0 }]).err(),
        Some(Error::InvalidPosition)
    );
}

#[test]
fn the_final_key_is_that_of_the_last_position() {
    assert!(final_key(&Vec::new(), 2020).is_none());
    let plies = replay(&vec![mv(12, 28), mv(52, 36)]).unwrap();
    let key = final_key(&plies, 2020).unwrap();
    let expected = KeyBuilder::master()
        .with_zobrist(Variant::Chess, outside_hash(&["e2e4"]))
        .with_year(AnnoLichess::from_year(2020));
    assert_eq!(key.into_bytes(), expected.into_bytes());
    assert_eq!(position_key(7, 2021).into_bytes(), {
        let mut bytes = vec![0u8; 16];
        bytes.push(7);
        bytes.push(121);
        bytes
    });
}

#[test]
fn a_batch_holds_the_game_and_one_write_for_each_position() {
    let moves = vec![mv(12, 28), mv(52, 36)];
    let plies = replay(&moves).unwrap();
    let facts = MasterGame {
        white_rating: 2500,
        black_rating: 2300,
        winner: Some(Color::Black),
        year: 2021,
        moves,
    };
    let ops = plan_batch(id(77), &facts, b"pgn".to_vec(), &plies);
    assert_eq!(ops.len(), 3);
    assert_eq!(ops[0].keyspace, Keyspace::MasterGame);
    assert_eq!(ops[0].kind, WriteKind::Put);
    assert_eq!(ops[0].key, vec![0, 0, 0, 0, 0, 77]);
    assert_eq!(ops[0].value, b"pgn".to_vec());
    let first = position_key(plies[0].hash, 2021).into_bytes();
    let second = position_key(plies[1].hash, 2021).into_bytes();
    let white = ops.iter().find(|op| op.key == first).unwrap();
    assert_eq!(white.keyspace, Keyspace::Master);
    assert_eq!(white.kind, WriteKind::Merge);
    assert_eq!(
        white.value,
        MasterEntry::new_single(
            mv(12, 28),
            id(77),
            Some(Color::Black),
            2500,
            2300,
            AnnoLichess::from_year(2021)
        )
        .to_bytes()
    );
    let black = ops.iter().find(|op| op.key == second).unwrap();
    let entry = MasterEntry::from_bytes(&black.value).unwrap();
    assert_eq!(
        entry.move_at(0),
        (mv(52, 36), Stats { white: 0, draws: 0, black: 1, rating_sum: 2300 })
    );
    let (rating, year, game) = entry.game_at(0, 0);
    assert_eq!((rating, year.to_byte(), game), (2400, 121, id(77)));
}

#[test]
fn a_position_that_comes_twice_is_written_once() {
    // the knights go out and back, then the pawn moves
    let moves = vec![mv(6, 21), mv(62, 45), mv(21, 6), mv(45, 62), mv(12, 28)];
    let plies = replay(&moves).unwrap();
    assert_eq!(plies[0].hash, plies[4].hash);
    let facts = game(2400, 2400, moves);
    let ops = plan_batch(id(5), &facts, Vec::new(), &plies);
    assert_eq!(ops.len(), 5);
    let mut keys: Vec<Vec<u8>> = ops[1..].iter().map(|op| op.key.clone()).collect();
    keys.sort();
    keys.dedup();
    assert_eq!(keys.len(), 4);
    let start = position_key(plies[0].hash, 2020).into_bytes();
    let op = ops.iter().find(|op| op.key == start).unwrap();
    let entry = MasterEntry::from_bytes(&op.value).unwrap();
    assert_eq!(entry.move_count(), 1);
    assert_eq!(entry.move_at(0).0, mv(12, 28));
    for ply in &plies[1..4] {
        let key = position_key(ply.hash, 2020).into_bytes();
        let op = ops.iter().find(|op| op.key == key).unwrap();
        assert_eq!(MasterEntry::from_bytes(&op.value).unwrap().move_at(0).0, ply.uci);
    }
}

#[test]
fn a_batch_of_given_plies() {
    let plies = vec![
        Ply { hash: 1, uci: mv(0, 1), turn: Color::White },
        Ply { hash: 2, uci: mv(0, 2), turn: Color::Black },
        Ply { hash: 1, uci: mv(0, 3), turn: Color::Black },
        Ply { hash: u128::MAX, uci: mv(0, 4), turn: Color::White },
        Ply { hash: 2, uci: mv(0, 5), turn: Color::White },
    ];
    let facts = MasterGame {
        white_rating: 2600,
        black_rating: 2400,
        winner: None,
        year: 2015,
        moves: Vec::new(),
    };
    let ops = plan_batch(id(9), &facts, vec![1, 2, 3], &plies);
    assert_eq!(ops.len(), 4);
    let expect = |hash: u128, uci: UciMove, mover: u16, opponent: u16| {
        let key = position_key(hash, 2015).into_bytes();
        let op = ops[1..].iter().find(|op| op.key == key).unwrap();
        assert_eq!(
            op.value,
            MasterEntry::new_single(uci, id(9), None, mover, opponent, AnnoLichess::from_year(2015))
                .to_bytes()
        );
    };
    expect(1, mv(0, 3), 2400, 2600);
    expect(2, mv(0, 5), 2600, 2400);
    expect(u128::MAX, mv(0, 4), 2600, 2400);
    let empty = plan_batch(id(9), &facts, vec![1], &Vec::new());
    assert_eq!(empty.len(), 1);
    assert_eq!(empty[0].value, vec![1]);
}

fn finish(action: ImportAction) -> Result<(), Error> {
    match action {
        ImportAction::Finish(result) => result,
        other => panic!("the import is not over: {:?}", other),
    }
}

#[test]
fn an_import_from_the_first_step_to_the_last() {
    let mut import = Import::new(id(3), game(2400, 2400, vec![mv(12, 28), mv(52, 36)]), b"x".to_vec());
    assert_eq!(import.current(), ImportState::Idle);
    match import.begin() {
        ImportAction::LookUpGame(asked) => assert_eq!(asked, id(3)),
        other => panic!("{:?}", other),
    }
    assert_eq!(import.current(), ImportState::Validating);
    match import.game_looked_up(false) {
        ImportAction::LookUpEntry(key) => {
            assert_eq!(key, position_key(outside_hash(&["e2e4"]), 2020).into_bytes())
        }
        other => panic!("{:?}", other),
    }
    assert_eq!(import.current(), ImportState::Validating);
    match import.entry_looked_up(false) {
        ImportAction::Write(ops) => assert_eq!(ops.len(), 3),
        other => panic!("{:?}", other),
    }
    assert_eq!(import.current(), ImportState::Writing);
    assert_eq!(finish(import.written()), Ok(()));
    assert_eq!(import.current(), ImportState::Committed);
}

#[test]
fn an_import_is_refused() {
    let mut import = Import::new(id(3), game(2100, 2100, vec![mv(12, 28)]), Vec::new());
    assert_eq!(finish(import.begin()), Err(Error::RejectedImport(id(3))));
    assert_eq!(import.current(), ImportState::Reject);

    let mut import = Import::new(id(3), game(2400, 2400, vec![mv(12, 28)]), Vec::new());
    import.begin();
    assert_eq!(finish(import.game_looked_up(true)), Err(Error::DuplicateGame(id(3))));
    assert_eq!(import.current(), ImportState::Reject);

    let mut import = Import::new(id(3), game(2400, 2400, vec![mv(12, 28)]), Vec::new());
    import.begin();
    import.game_looked_up(false);
    assert_eq!(finish(import.entry_looked_up(true)), Err(Error::DuplicateGame(id(3))));
    assert_eq!(import.current(), ImportState::Reject);

    let mut import = Import::new(id(3), game(2400, 2400, vec![mv(12, 36)]), Vec::new());
    import.begin();
    assert_eq!(finish(import.game_looked_up(false)), Err(Error::InvalidPosition));
    assert_eq!(import.current(), ImportState::Reject);
}

#[test]
fn an_import_of_a_game_without_moves() {
    let mut import = Import::new(id(3), game(2400, 2400, Vec::new()), b"empty".to_vec());
    import.begin();
    match import.game_looked_up(false) {
        ImportAction::Write(ops) => {
            assert_eq!(ops.len(), 1);
            assert_eq!(ops[0].value, b"empty".to_vec());
        }
        other => panic!("{:?}", other),
    }
    assert_eq!(import.current(), ImportState::Writing);
    assert_eq!(finish(import.written()), Ok(()));
}

fn outside_position(moves: &[&str]) -> shakmaty::Chess {
    let mut pos = shakmaty::Chess::default();
    for text in moves {
        let uci: shakmaty::uci::Uci = text.parse().unwrap();
        let m = uci.to_move(&pos).unwrap();
        pos.play_unchecked(&m);
    }
    pos
}

#[test]
fn the_notation_of_a_move_names_the_rook_for_castling() {
    let pos = outside_position(&["e2e4", "e7e5", "g1f3", "b8c6", "f1c4", "f8c5"]);
    let castle = "e1g1".parse::<shakmaty::uci::Uci>().unwrap().to_move(&pos).unwrap();
    assert_eq!(notation(&castle), mv(4, 7));
    let push = "d2d3".parse::<shakmaty::uci::Uci>().unwrap().to_move(&pos).unwrap();
    assert_eq!(notation(&push), mv(11, 19));
}

#[test]
fn replay_from_a_given_position() {
    let pos = outside_position(&["e2e4"]);
    let plies = replay_from(pos, &vec![mv(52, 36), mv(6, 21)]).unwrap();
    assert_eq!(plies.len(), 2);
    assert_eq!(plies[0].hash, outside_hash(&["e2e4"]));
    assert_eq!(plies[0].turn, Color::Black);
    assert_eq!(plies[0].uci, mv(52, 36));
    assert_eq!(plies[1].hash, outside_hash(&["e2e4", "e7e5"]));
    assert_eq!(plies[1].turn, Color::White);
    // the first move of a game cannot be played behind itself
    let pos = outside_position(&["e2e4"]);
    assert_eq!(replay_from(pos, &vec![mv(12, 28)]).err(), Some(Error::InvalidPosition));
    let pos = outside_position(&["e2e4"]);
    assert_eq!(replay_from(pos, &Vec::new()).unwrap().len(), 0);
}
