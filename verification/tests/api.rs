use opening_explorer::api::{
    find_legal, master_move, personal_move, recent_games, sorted_moves, top_games, total_of,
    Error, LegalMove, Limits, MoveRow, DEFAULT_MOVES, MAX_TOP_GAMES,
};
use opening_explorer::model::basic::Color;
use opening_explorer::model::game_id::GameId;
use opening_explorer::model::master::MasterEntry;
use opening_explorer::model::personal::PersonalEntry;
use opening_explorer::model::stats::Stats;
use opening_explorer::model::uci::UciMove;
use opening_explorer::model::year::AnnoLichess;

fn mv(from: u8, to: u8) -> UciMove {
    UciMove::Normal { from, to, promotion: None }
}

fn id(n: u64) -> GameId {
    GameId::from_u64(n).unwrap()
}

fn legal(moves: &[(UciMove, &str)]) -> Vec<LegalMove> {
    moves.iter().map(|(uci, san)| LegalMove { uci: *uci, san: san.as_bytes().to_vec() }).collect()
}

fn stats(white: u64, draws: u64, black: u64) -> Stats {
    Stats { white, draws, black, rating_sum: 1000 * (white + draws + black) }
}

fn rows(rows: &[MoveRow]) -> Vec<(UciMove, String, u64)> {
    rows.iter()
        .map(|row| (row.uci, String::from_utf8(row.san.clone()).unwrap(), row.stats.total()))
        .collect()
}

#[test]
fn errors_answer_with_a_status() {
    assert_eq!(Error::InvalidPosition.status(), 400);
    assert_eq!(Error::RejectedImport(id(1)).status(), 400);
    assert_eq!(Error::DuplicateGame(id(1)).status(), 400);
    assert_eq!(Error::NotFound.status(), 404);
    assert_eq!(Error::Internal.status(), 500);
    assert_ne!(Error::RejectedImport(id(1)), Error::RejectedImport(id(2)));
    assert_ne!(Error::RejectedImport(id(1)), Error::DuplicateGame(id(1)));
}

#[test]
fn limits_have_defaults_and_caps() {
    let limits = Limits { moves: None, recent_games: 4, top_games: 4 };
    assert_eq!(limits.move_limit(), 12);
    assert_eq!(DEFAULT_MOVES, 12);
    assert_eq!(limits.top_limit(), 4);
    let limits = Limits { moves: Some(3), recent_games: 0, top_games: 100 };
    assert_eq!(limits.move_limit(), 3);
    assert_eq!(limits.top_limit(), 15);
    assert_eq!(MAX_TOP_GAMES, 15);
    let limits = Limits { moves: Some(0), recent_games: 0, top_games: 15 };
    assert_eq!(limits.move_limit(), 0);
    assert_eq!(limits.top_limit(), 15);
}

#[test]
fn legal_moves_are_found_by_their_code() {
    let list = legal(&[(mv(12, 28), "e4"), (mv(11, 27), "d4"), (mv(12, 28), "again")]);
    assert_eq!(find_legal(&list, mv(12, 28)), Some(0));
    assert_eq!(find_legal(&list, mv(11, 27)), Some(1));
    assert_eq!(find_legal(&list, mv(6, 21)), None);
    assert_eq!(find_legal(&Vec::new(), mv(6, 21)), None);
}

#[test]
fn rows_are_the_legal_moves_by_games_then_by_code() {
    let moves = vec![
        (mv(6, 21), stats(1, 1, 0)),
        (mv(11, 27), stats(3, 0, 2)),
        (mv(12, 28), stats(2, 2, 1)),
        (mv(10, 26), stats(9, 9, 9)),
        (mv(1, 18), stats(0, 0, 0)),
        (mv(12, 20), stats(0, 7, 0)),
    ];
    let list = legal(&[
        (mv(12, 28), "e4"),
        (mv(11, 27), "d4"),
        (mv(6, 21), "Nf3"),
        (mv(1, 18), "Nc3"),
        (mv(12, 20), "e3"),
        (mv(8, 16), "a3"),
    ]);
    assert_eq!(
        rows(&sorted_moves(&moves, &list, 12)),
        vec![
            (mv(12, 20), "e3".to_string(), 7),
            (mv(11, 27), "d4".to_string(), 5),
            (mv(12, 28), "e4".to_string(), 5),
            (mv(6, 21), "Nf3".to_string(), 2),
            (mv(1, 18), "Nc3".to_string(), 0),
        ]
    );
    assert_eq!(
        rows(&sorted_moves(&moves, &list, 2)),
        vec![(mv(12, 20), "e3".to_string(), 7), (mv(11, 27), "d4".to_string(), 5)]
    );
    assert!(sorted_moves(&moves, &list, 0).is_empty());
    assert!(sorted_moves(&moves, &Vec::new(), 12).is_empty());
    assert!(sorted_moves(&Vec::new(), &list, 12).is_empty());
    assert_eq!(total_of(&moves, &list), Stats { white: 6, draws: 10, black: 3, rating_sum: 19_000 });
    assert_eq!(total_of(&moves, &Vec::new()), Stats::new());
    assert_eq!(total_of(&Vec::new(), &list), Stats::new());
}

#[test]
fn personal_rows_show_the_game_of_a_move_played_once() {
    let mut entry = PersonalEntry::new();
    entry.extend(&PersonalEntry::new_single(mv(12, 28), id(5), Some(Color::White), 1500));
    entry.extend(&PersonalEntry::new_single(mv(12, 28), id(6), None, 1700));
    entry.extend(&PersonalEntry::new_single(mv(11, 27), id(7), Some(Color::Black), 1800));
    let list = legal(&[(mv(12, 28), "e4"), (mv(11, 27), "d4")]);
    let moves = entry.moves();
    let mut out = Vec::new();
    for row in sorted_moves(&moves, &list, 12) {
        out.push(personal_move(&entry, row));
    }
    assert_eq!(out.len(), 2);
    assert_eq!(out[0].uci, mv(12, 28));
    assert_eq!(out[0].san, b"e4".to_vec());
    assert_eq!(out[0].stats.total(), 2);
    assert_eq!(out[0].average_rating, None);
    assert_eq!(out[0].average_opponent_rating, Some(1600));
    assert_eq!(out[0].game, None);
    assert_eq!(out[1].uci, mv(11, 27));
    assert_eq!(out[1].average_opponent_rating, Some(1800));
    assert_eq!(out[1].game, Some(id(7)));
    let empty = personal_move(&entry, MoveRow { uci: mv(6, 21), san: b"Nf3".to_vec(), stats: Stats::new() });
    assert_eq!(empty.average_opponent_rating, None);
    assert_eq!(empty.game, None);
}

#[test]
fn the_latest_pointers_come_first() {
    let mut entry = PersonalEntry::new();
    for n in [4u64, 9, 2, 7, 5] {
        entry.extend(&PersonalEntry::new_single(mv(12, 28), id(n), None, 1500));
    }
    entry.extend(&PersonalEntry::new_single(mv(11, 27), id(9), None, 1500));
    assert_eq!(
        recent_games(&entry, 3),
        vec![(mv(12, 28), id(9)), (mv(11, 27), id(9)), (mv(12, 28), id(7))]
    );
    assert_eq!(recent_games(&entry, 0), vec![]);
    assert_eq!(recent_games(&entry, 100).len(), 6);
    assert_eq!(recent_games(&entry, 100)[5], (mv(12, 28), id(2)));
    assert_eq!(recent_games(&PersonalEntry::new(), 3), vec![]);
}

fn master() -> MasterEntry {
    let mut entry = MasterEntry::new();
    let games = [
        (mv(12, 28), 1u64, 2500u16, 2021u16),
        (mv(12, 28), 2, 2700, 2015),
        (mv(11, 27), 3, 2600, 2019),
        (mv(6, 21), 4, 2600, 2020),
        (mv(6, 21), 5, 2400, 2022),
        (mv(6, 21), 6, 2400, 2022),
    ];
    for (uci, game, rating, year) in games {
        entry.extend(&MasterEntry::new_single(
            uci,
            id(game),
            Some(Color::White),
            rating,
            rating,
            AnnoLichess::from_year(year),
        ));
    }
    entry
}

#[test]
fn master_rows_show_the_game_of_a_move_played_once() {
    let entry = master();
    let list = legal(&[(mv(12, 28), "e4"), (mv(11, 27), "d4"), (mv(6, 21), "Nf3")]);
    let moves = entry.moves();
    let mut out = Vec::new();
    for row in sorted_moves(&moves, &list, 12) {
        out.push(master_move(&entry, row));
    }
    assert_eq!(out.iter().map(|m| m.uci).collect::<Vec<_>>(), vec![mv(6, 21), mv(12, 28), mv(11, 27)]);
    assert_eq!(out[0].stats.total(), 3);
    assert_eq!(out[0].average_rating, Some(2466));
    assert_eq!(out[0].average_opponent_rating, None);
    assert_eq!(out[0].game, None);
    assert_eq!(out[2].average_rating, Some(2600));
    assert_eq!(out[2].game, Some(id(3)));
    assert_eq!(total_of(&moves, &list).total(), 6);
}

#[test]
fn top_games_come_by_rating_then_year_then_game() {
    let entry = master();
    let top: Vec<(UciMove, u64)> =
        top_games(&entry, 15).iter().map(|game| (game.uci, game.id.to_u64())).collect();
    assert_eq!(
        top,
        vec![
            (mv(12, 28), 2),
            (mv(6, 21), 4),
            (mv(11, 27), 3),
            (mv(12, 28), 1),
            (mv(6, 21), 6),
            (mv(6, 21), 5),
        ]
    );
    let top: Vec<u64> = top_games(&entry, 2).iter().map(|game| game.id.to_u64()).collect();
    assert_eq!(top, vec![2, 4]);
    assert!(top_games(&entry, 0).is_empty());
    assert!(top_games(&MasterEntry::new(), 15).is_empty());
    let game = top_games(&entry, 1)[0];
    assert_eq!(game.rank, ((2700u128 * 256 + 115) << 48) + 2);
}
