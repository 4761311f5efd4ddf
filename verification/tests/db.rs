use opening_explorer::db::{
    fold_game_infos, fold_master, fold_personal, game_merge, gather, get_game_info, master_merge,
    merge_game_info, merge_master, merge_personal, personal_merge, put_master_game, Keyspace,
    WriteKind,
};
use opening_explorer::model::basic::{Color, Mode, Speed, Variant};
use opening_explorer::model::game_id::GameId;
use opening_explorer::model::game_info::{GameInfo, Player};
use opening_explorer::model::key::KeyBuilder;
use opening_explorer::model::master::MasterEntry;
use opening_explorer::model::personal::PersonalEntry;
use opening_explorer::model::reader::DecodeError;
use opening_explorer::model::uci::UciMove;
use opening_explorer::model::user::UserId;
use opening_explorer::model::year::AnnoLichess;

fn e2e4() -> UciMove {
    UciMove::Normal { from: 12, to: 28, promotion: None }
}

fn d2d4() -> UciMove {
    UciMove::Normal { from: 11, to: 27, promotion: None }
}

fn id(n: u64) -> GameId {
    GameId::from_u64(n).unwrap()
}

fn info(white: bool, black: bool, rating: u16) -> GameInfo {
    GameInfo {
        white: Player { name: b"ann".to_vec(), rating },
        black: Player { name: b"bob".to_vec(), rating: 1600 },
        winner: None,
        year: 2020,
        month: 1,
        event: b"arena".to_vec(),
        speed: Speed::Bullet,
        mode: Mode::Rated,
        indexed_white: white,
        indexed_black: black,
    }
}

fn single(uci: UciMove, game: u64) -> Vec<u8> {
    PersonalEntry::new_single(uci, id(game), Some(Color::White), 1500).to_bytes()
}

fn master_single(uci: UciMove, game: u64, rating: u16) -> Vec<u8> {
    MasterEntry::new_single(uci, id(game), None, rating, rating, AnnoLichess::from_year(2020))
        .to_bytes()
}

#[test]
fn operands_are_gathered_behind_what_is_stored() {
    let operands = vec![vec![2u8], vec![], vec![3, 4]];
    let stored = [1u8];
    assert_eq!(
        gather(Some(&stored), &operands),
        vec![&[1u8][..], &[2u8][..], &[][..], &[3u8, 4][..]]
    );
    assert_eq!(gather(None, &operands), vec![&[2u8][..], &[][..], &[3u8, 4][..]]);
    assert!(gather(None, &Vec::new()).is_empty());
}

#[test]
fn game_merge_of_nothing_is_nothing() {
    assert_eq!(game_merge(b"key", None, &Vec::new()), None);
    assert_eq!(fold_game_infos(&Vec::new()), None);
}

#[test]
fn game_merge_keeps_the_latest_record_and_all_marks() {
    let first = info(true, false, 1500).to_bytes();
    let second = info(false, false, 1501).to_bytes();
    let third = info(false, true, 1502).to_bytes();
    let merged = game_merge(b"", None, &vec![first.clone(), second.clone(), third.clone()]).unwrap();
    assert_eq!(merged, info(true, true, 1502).to_bytes());
    let merged = game_merge(b"", Some(&third), &vec![second.clone(), first.clone()]).unwrap();
    assert_eq!(merged, info(true, true, 1500).to_bytes());
    let merged = game_merge(b"", Some(&second), &Vec::new()).unwrap();
    assert_eq!(merged, second);
    let merged = game_merge(b"", None, &vec![second.clone(), second.clone()]).unwrap();
    assert_eq!(merged, second);
}

#[test]
fn game_merge_marks_are_the_or_of_all_marks() {
    for mask in 0u32..64 {
        let records: Vec<Vec<u8>> = (0..3)
            .map(|i| info(mask >> (2 * i) & 1 == 1, mask >> (2 * i + 1) & 1 == 1, 1500 + i as u16).to_bytes())
            .collect();
        let merged = GameInfo::from_bytes(&game_merge(b"", None, &records).unwrap()).unwrap();
        assert_eq!(merged.indexed_white, mask & 0b010101 != 0);
        assert_eq!(merged.indexed_black, mask & 0b101010 != 0);
        assert_eq!(merged.white.rating, 1502);
    }
}

#[test]
fn game_merge_does_not_depend_on_the_grouping() {
    let a = info(false, true, 1500).to_bytes();
    let b = info(true, false, 1600).to_bytes();
    let c = info(false, false, 1700).to_bytes();
    let whole = game_merge(b"", None, &vec![a.clone(), b.clone(), c.clone()]);
    let ab = game_merge(b"", None, &vec![a.clone(), b.clone()]).unwrap();
    assert_eq!(game_merge(b"", Some(&ab), &vec![c.clone()]), whole);
    let bc = game_merge(b"", None, &vec![b, c]).unwrap();
    assert_eq!(game_merge(b"", Some(&a), &vec![bc]), whole);
}

#[test]
fn game_merge_hands_back_what_it_cannot_read() {
    let good = info(true, false, 1500).to_bytes();
    let bad = vec![9u8, 9, 9];
    assert_eq!(
        game_merge(b"", None, &vec![good.clone(), bad.clone(), good.clone(), vec![]]),
        Some(bad.clone())
    );
    assert_eq!(game_merge(b"", Some(&bad), &vec![good.clone()]), Some(bad.clone()));
    assert_eq!(game_merge(b"", Some(&[]), &vec![good.clone()]), Some(vec![]));
    let poisoned = game_merge(b"", None, &vec![good.clone(), bad.clone()]).unwrap();
    assert_eq!(game_merge(b"", Some(&poisoned), &vec![good.clone()]), Some(bad));
}

#[test]
fn personal_merge_of_nothing_is_the_empty_entry() {
    assert_eq!(personal_merge(b"key", None, &Vec::new()), Some(vec![0, 0]));
    assert_eq!(personal_merge(b"key", Some(&[0, 0]), &vec![vec![0, 0]]), Some(vec![0, 0]));
}

#[test]
fn personal_merge_folds_the_operands() {
    let operands = vec![single(e2e4(), 1), single(d2d4(), 2), single(e2e4(), 3)];
    let merged = personal_merge(b"", None, &operands).unwrap();
    let entry = PersonalEntry::from_bytes(&merged).unwrap();
    assert_eq!(entry.stats_of(e2e4()).total(), 2);
    assert_eq!(entry.stats_of(d2d4()).total(), 1);
    assert_eq!(entry.recent_count(), 3);
    let stored = personal_merge(b"", None, &operands[..1].to_vec()).unwrap();
    assert_eq!(personal_merge(b"", Some(&stored), &operands[1..].to_vec()), Some(merged.clone()));
    let stored = personal_merge(b"", None, &operands[1..].to_vec()).unwrap();
    assert_eq!(personal_merge(b"", Some(&operands[0]), &vec![stored]), Some(merged));
}

#[test]
fn personal_merge_does_not_depend_on_the_grouping_beyond_the_cap() {
    let operands: Vec<Vec<u8>> = (1..=30).map(|n| single(e2e4(), (n * 37) % 101)).collect();
    let whole = personal_merge(b"", None, &operands).unwrap();
    for split in [1usize, 5, 9, 15, 29] {
        let head = personal_merge(b"", None, &operands[..split].to_vec()).unwrap();
        assert_eq!(
            personal_merge(b"", Some(&head), &operands[split..].to_vec()),
            Some(whole.clone())
        );
        let tail = personal_merge(b"", None, &operands[split..].to_vec()).unwrap();
        let mut regrouped = operands[..split].to_vec();
        regrouped.push(tail);
        assert_eq!(personal_merge(b"", None, &regrouped), Some(whole.clone()));
    }
    let entry = PersonalEntry::from_bytes(&whole).unwrap();
    assert_eq!(entry.recent_count(), 8);
    assert_eq!(entry.stats_of(e2e4()).total(), 30);
}

#[test]
fn personal_merge_hands_back_what_it_cannot_read() {
    let good = single(e2e4(), 1);
    let bad = vec![1u8, 2];
    assert_eq!(
        personal_merge(b"", None, &vec![good.clone(), bad.clone(), vec![3]]),
        Some(bad.clone())
    );
    assert_eq!(personal_merge(b"", Some(&[]), &vec![good.clone()]), Some(vec![]));
    assert_eq!(personal_merge(b"", Some(&good), &vec![bad.clone()]), Some(bad));
}

#[test]
fn scans_of_personal_entries_are_folded_without_loss() {
    let values: Vec<Vec<u8>> = (1..=12).map(|n| single(e2e4(), n)).collect();
    let entry = fold_personal(&values).unwrap();
    assert_eq!(entry.recent_count(), 12);
    assert_eq!(entry.stats_of(e2e4()).total(), 12);
    assert_eq!(fold_personal(&Vec::new()).unwrap().to_bytes(), vec![0, 0]);
    assert_eq!(
        fold_personal(&vec![values[0].clone(), vec![0]]).err(),
        Some(DecodeError::UnexpectedEof)
    );
    assert_eq!(
        fold_personal(&vec![vec![0, 0, 0], vec![0]]).err(),
        Some(DecodeError::InvalidData)
    );
}

#[test]
fn master_merge_folds_the_operands() {
    assert_eq!(master_merge(b"", None, &Vec::new()), Some(vec![0]));
    let operands: Vec<Vec<u8>> =
        (0..40).map(|n| master_single(e2e4(), n, 2200 + ((n * 7) % 40) as u16)).collect();
    let whole = master_merge(b"", None, &operands).unwrap();
    let entry = MasterEntry::from_bytes(&whole).unwrap();
    assert_eq!(entry.move_at(0).1.total(), 40);
    assert_eq!(entry.game_count(0), 15);
    for split in [1usize, 14, 16, 39] {
        let head = master_merge(b"", None, &operands[..split].to_vec()).unwrap();
        assert_eq!(master_merge(b"", Some(&head), &operands[split..].to_vec()), Some(whole.clone()));
    }
    assert_eq!(fold_master(&operands).unwrap().to_bytes(), whole);
    let bad = vec![7u8];
    assert_eq!(
        master_merge(b"", Some(&whole), &vec![bad.clone(), operands[0].clone()]),
        Some(bad)
    );
    assert_eq!(fold_master(&vec![vec![1]]).err(), Some(DecodeError::UnexpectedEof));
    assert_eq!(fold_master(&vec![vec![0, 0]]).err(), Some(DecodeError::InvalidData));
}

#[test]
fn writes() {
    let game = info(true, false, 1500);
    let op = merge_game_info(id(0x0102_0304_0506), &game);
    assert_eq!(op.keyspace, Keyspace::Game);
    assert_eq!(op.kind, WriteKind::Merge);
    assert_eq!(op.key, vec![1, 2, 3, 4, 5, 6]);
    assert_eq!(op.value, game.to_bytes());

    let user = UserId::from_name(b"ann").unwrap();
    let key = KeyBuilder::personal(&user, Color::White)
        .with_zobrist(Variant::Chess, 9)
        .with_year(AnnoLichess::from_year(2020));
    let entry = PersonalEntry::new_single(e2e4(), id(1), None, 1500);
    let op = merge_personal(&key, &entry);
    assert_eq!(op.keyspace, Keyspace::Personal);
    assert_eq!(op.kind, WriteKind::Merge);
    assert_eq!(op.key, key.into_bytes());
    assert_eq!(op.value, entry.to_bytes());

    let key = KeyBuilder::master().with_zobrist(Variant::Chess, 9).with_year(AnnoLichess::from_year(2020));
    let entry = MasterEntry::new_single(e2e4(), id(1), None, 2500, 2500, AnnoLichess::from_year(2020));
    let op = merge_master(&key, &entry);
    assert_eq!(op.keyspace, Keyspace::Master);
    assert_eq!(op.kind, WriteKind::Merge);
    assert_eq!(op.key, key.into_bytes());
    assert_eq!(op.value, entry.to_bytes());

    let op = put_master_game(id(7), b"1. e4 e5".to_vec());
    assert_eq!(op.keyspace, Keyspace::MasterGame);
    assert_eq!(op.kind, WriteKind::Put);
    assert_eq!(op.key, vec![0, 0, 0, 0, 0, 7]);
    assert_eq!(op.value, b"1. e4 e5".to_vec());
}

#[test]
fn point_reads_of_games() {
    assert!(get_game_info(None).unwrap().is_none());
    let game = info(false, true, 1500);
    let bytes = game.to_bytes();
    let back = get_game_info(Some(&bytes)).unwrap().unwrap();
    assert_eq!(back.to_bytes(), bytes);
    assert_eq!(get_game_info(Some(&[1, 2])).err(), Some(DecodeError::UnexpectedEof));
    assert_eq!(get_game_info(Some(&[9, 9, 9, 9, 9])).err(), Some(DecodeError::InvalidData));
}
