use opening_explorer::db::{Keyspace, WriteKind};
use opening_explorer::importer::{replay, Ply};
use opening_explorer::indexer::{is_indexed, plan_index, same_bytes, side_of};
use opening_explorer::model::basic::{Color, Mode, Speed, Variant};
use opening_explorer::model::game_id::GameId;
use opening_explorer::model::game_info::{GameInfo, Player};
use opening_explorer::model::key::KeyBuilder;
use opening_explorer::model::personal::PersonalEntry;
use opening_explorer::model::uci::UciMove;
use opening_explorer::model::user::UserId;
use opening_explorer::model::year::AnnoLichess;

fn mv(from: u8, to: u8) -> UciMove {
    UciMove::Normal { from, to, promotion: None }
}

fn info(white: &[u8], black: &[u8]) -> GameInfo {
    GameInfo {
        white: Player { name: white.to_vec(), rating: 1500 },
        black: Player { name: black.to_vec(), rating: 1800 },
        winner: Some(Color::Black),
        year: 2019,
        month: 4,
        event: Vec::new(),
        speed: Speed::Rapid,
        mode: Mode::Rated,
        indexed_white: true,
        indexed_black: false,
    }
}

#[test]
fn strings_of_bytes_are_compared() {
    assert!(same_bytes(b"", b""));
    assert!(same_bytes(b"abc", b"abc"));
    assert!(!same_bytes(b"abc", b"abd"));
    assert!(!same_bytes(b"abc", b"ab"));
    assert!(!same_bytes(b"", b"a"));
}

#[test]
fn a_player_has_a_side_in_a_game() {
    let ann = UserId::from_name(b"Ann").unwrap();
    assert_eq!(side_of(&ann, &info(b"ann", b"bob")), Some(Color::White));
    assert_eq!(side_of(&ann, &info(b"bob", b"ann")), Some(Color::Black));
    assert_eq!(side_of(&ann, &info(b"ann", b"ann")), Some(Color::White));
    assert_eq!(side_of(&ann, &info(b"bob", b"cat")), None);
    assert_eq!(side_of(&ann, &info(b"anna", b"an")), None);
}

#[test]
fn a_game_is_counted_once_for_each_side() {
    assert!(!is_indexed(&None, Color::White));
    assert!(!is_indexed(&None, Color::Black));
    let known = Some(info(b"ann", b"bob"));
    assert!(is_indexed(&known, Color::White));
    assert!(!is_indexed(&known, Color::Black));
}

#[test]
fn the_writes_for_a_game_of_a_player() {
    let bob = UserId::from_name(b"bob").unwrap();
    let game = info(b"ann", b"bob");
    let id = GameId::from_u64(42).unwrap();
    let plies = replay(&vec![mv(12, 28), mv(52, 36), mv(6, 21), mv(57, 42)]).unwrap();
    let ops = plan_index(&bob, Color::Black, id, &game, &plies);
    assert_eq!(ops.len(), 3);
    for (op, ply) in ops[..2].iter().zip([&plies[1], &plies[3]]) {
        assert_eq!(op.keyspace, Keyspace::Personal);
        assert_eq!(op.kind, WriteKind::Merge);
        let key = KeyBuilder::personal(&bob, Color::Black)
            .with_zobrist(Variant::Chess, ply.hash)
            .with_year(AnnoLichess::from_year(2019));
        assert_eq!(op.key, key.into_bytes());
        assert_eq!(
            op.value,
            PersonalEntry::new_single(ply.uci, id, Some(Color::Black), 1500).to_bytes()
        );
    }
    assert_eq!(ops[2].keyspace, Keyspace::Game);
    assert_eq!(ops[2].kind, WriteKind::Merge);
    assert_eq!(ops[2].key, vec![0, 0, 0, 0, 0, 42]);
    let mark = GameInfo::from_bytes(&ops[2].value).unwrap();
    assert!(!mark.indexed_white);
    assert!(mark.indexed_black);
    assert_eq!(mark.white.name, b"ann".to_vec());
    assert_eq!(mark.black.rating, 1800);

    let ann = UserId::from_name(b"ann").unwrap();
    let ops = plan_index(&ann, Color::White, id, &game, &plies);
    assert_eq!(ops.len(), 3);
    assert_eq!(
        ops[0].value,
        PersonalEntry::new_single(mv(12, 28), id, Some(Color::Black), 1800).to_bytes()
    );
    let mark = GameInfo::from_bytes(&ops[2].value).unwrap();
    assert!(mark.indexed_white);
    assert!(!mark.indexed_black);
}

#[test]
fn a_game_without_moves_of_the_player_is_marked_only() {
    let ann = UserId::from_name(b"ann").unwrap();
    let id = GameId::from_u64(7).unwrap();
    let ops = plan_index(&ann, Color::White, id, &info(b"ann", b"bob"), &Vec::new());
    assert_eq!(ops.len(), 1);
    assert_eq!(ops[0].keyspace, Keyspace::Game);
    let plies = vec![Ply { hash: 5, uci: mv(1, 2), turn: Color::Black }];
    let ops = plan_index(&ann, Color::White, id, &info(b"ann", b"bob"), &plies);
    assert_eq!(ops.len(), 1);
    let ops = plan_index(&ann, Color::Black, id, &info(b"bob", b"ann"), &plies);
    assert_eq!(ops.len(), 2);
    assert_eq!(ops[0].keyspace, Keyspace::Personal);
}
