use opening_explorer::model::basic::{Color, Mode, Speed};
use opening_explorer::model::game_id::GameId;
use opening_explorer::model::game_info::{read_bytes, write_bytes, GameInfo, Player};
use opening_explorer::model::keyset::KeySet;
use opening_explorer::model::master::{join_rank, split_rank, MasterEntry, MAX_MASTER_GAMES};
use opening_explorer::model::personal::{PersonalEntry, MAX_RECENT_GAMES};
use opening_explorer::model::reader::{DecodeError, Reader};
use opening_explorer::model::stats::Stats;
use opening_explorer::model::uci::UciMove;
use opening_explorer::model::year::AnnoLichess;

fn e2e4() -> UciMove {
    UciMove::Normal { from: 12, to: 28, promotion: None }
}

fn d2d4() -> UciMove {
    UciMove::Normal { from: 11, to: 27, promotion: None }
}

fn g1f3() -> UciMove {
    UciMove::Normal { from: 6, to: 21, promotion: None }
}

fn id(n: u64) -> GameId {
    GameId::from_u64(n).unwrap()
}

fn personal(games: &[(UciMove, u64, Option<Color>, u16)]) -> PersonalEntry {
    let mut entry = PersonalEntry::new();
    for (uci, game, winner, rating) in games {
        entry.extend(&PersonalEntry::new_single(*uci, id(*game), *winner, *rating));
    }
    entry
}

fn recent(entry: &PersonalEntry) -> Vec<(UciMove, u64)> {
    (0..entry.recent_count()).map(|i| entry.recent_at(i)).map(|(uci, id)| (uci, id.to_u64())).collect()
}

#[test]
fn key_sets_are_sorted_and_hold_each_element_once() {
    let mut set = KeySet::new();
    assert_eq!(set.insert(5), (0, true));
    assert_eq!(set.insert(9), (1, true));
    assert_eq!(set.insert(1), (0, true));
    assert_eq!(set.insert(5), (1, false));
    assert_eq!(set.insert(7), (2, true));
    assert_eq!(set.len(), 4);
    assert_eq!((0..4).map(|i| set.get(i)).collect::<Vec<_>>(), vec![1, 5, 7, 9]);
    assert_eq!(set.find(7), (2, true));
    assert_eq!(set.find(6), (2, false));
    assert_eq!(set.find(0), (0, false));
    assert_eq!(set.find(10), (4, false));
    assert!(set.contains(9));
    assert!(!set.contains(8));
    assert_eq!(set.top(2), vec![9, 7]);
    assert_eq!(set.top(0), Vec::<u128>::new());
    assert_eq!(set.top(9), vec![9, 7, 5, 1]);
    let mut other = KeySet::from_vec(vec![0, 5, 8]).unwrap();
    other.union_with(&set);
    assert_eq!(other.top(10), vec![9, 8, 7, 5, 1, 0]);
    other.keep_last(4);
    assert_eq!(other.top(10), vec![9, 8, 7, 5]);
    other.keep_last(4);
    assert_eq!(other.len(), 4);
    other.keep_last(0);
    assert_eq!(other.len(), 0);
    assert_eq!(set.duplicate().top(9), vec![9, 7, 5, 1]);
}

#[test]
fn key_sets_are_not_made_of_unsorted_vectors() {
    assert!(KeySet::from_vec(vec![]).is_some());
    assert!(KeySet::from_vec(vec![3]).is_some());
    assert!(KeySet::from_vec(vec![1, 2, 4]).is_some());
    assert!(KeySet::from_vec(vec![1, 1]).is_none());
    assert!(KeySet::from_vec(vec![1, 3, 2]).is_none());
    assert!(KeySet::from_vec(vec![2, 1]).is_none());
}

#[test]
fn personal_entry_of_one_game() {
    let entry = PersonalEntry::new_single(e2e4(), id(1), Some(Color::White), 1500);
    assert_eq!(entry.move_count(), 1);
    assert_eq!(
        entry.move_at(0),
        (e2e4(), Stats { white: 1, draws: 0, black: 0, rating_sum: 1500 })
    );
    assert_eq!(entry.recent_count(), 1);
    assert_eq!(entry.recent_at(0), (e2e4(), id(1)));
    assert_eq!(
        entry.to_bytes(),
        vec![1, 0x07, 0x0c, 1, 0, 0, 0xdc, 0x0b, 1, 0, 0, 0, 0, 0, 1, 0x07, 0x0c]
    );
}

#[test]
fn empty_personal_entry() {
    let entry = PersonalEntry::new();
    assert_eq!(entry.move_count(), 0);
    assert_eq!(entry.recent_count(), 0);
    assert_eq!(entry.to_bytes(), vec![0, 0]);
    let back = PersonalEntry::from_bytes(&[0, 0]).unwrap();
    assert_eq!(back.move_count(), 0);
    assert_eq!(back.recent_count(), 0);
}

#[test]
fn personal_merge_sums_counters_and_keeps_pointers() {
    let entry = personal(&[
        (e2e4(), 5, Some(Color::White), 1500),
        (d2d4(), 3, None, 1600),
        (e2e4(), 9, Some(Color::Black), 1700),
        (e2e4(), 5, Some(Color::White), 1500),
    ]);
    assert_eq!(
        entry.moves(),
        vec![
            (d2d4(), Stats { white: 0, draws: 1, black: 0, rating_sum: 1600 }),
            (e2e4(), Stats { white: 2, draws: 0, black: 1, rating_sum: 4700 }),
        ]
    );
    assert_eq!(recent(&entry), vec![(d2d4(), 3), (e2e4(), 5), (e2e4(), 9)]);
    assert_eq!(entry.stats_of(e2e4()).total(), 3);
    assert_eq!(entry.stats_of(g1f3()), Stats::new());
    assert_eq!(entry.latest_game_of(e2e4()), Some(id(9)));
    assert_eq!(entry.latest_game_of(d2d4()), Some(id(3)));
    assert_eq!(entry.latest_game_of(g1f3()), None);
}

#[test]
fn personal_merge_does_not_depend_on_the_grouping() {
    let a = || personal(&[(e2e4(), 1, Some(Color::White), 1500), (d2d4(), 2, None, 1510)]);
    let b = || personal(&[(e2e4(), 3, Some(Color::Black), 1520), (g1f3(), 4, None, 1530)]);
    let c = || personal(&[(g1f3(), 5, Some(Color::White), 1540), (e2e4(), 1, None, 1550)]);
    let mut left = a();
    left.extend(&b());
    left.extend(&c());
    let mut bc = b();
    bc.extend(&c());
    let mut right = a();
    right.extend(&bc);
    assert_eq!(left.moves(), right.moves());
    assert_eq!(recent(&left), recent(&right));
    assert_eq!(left.to_bytes(), right.to_bytes());
    let mut swapped = b();
    swapped.extend(&a());
    let mut straight = a();
    straight.extend(&b());
    assert_eq!(swapped.to_bytes(), straight.to_bytes());
    let total: u64 = left.moves().iter().map(|(_, stats)| stats.total()).sum();
    assert_eq!(total, 6);
}

#[test]
fn personal_entries_store_the_latest_pointers_only() {
    let games: Vec<(UciMove, u64, Option<Color>, u16)> =
        (1..=12).map(|n| (e2e4(), n * 10, None, 1500)).collect();
    let mut entry = personal(&games);
    assert_eq!(entry.recent_count(), 12);
    let stored = PersonalEntry::from_bytes(&entry.to_bytes()).unwrap();
    assert_eq!(stored.recent_count(), MAX_RECENT_GAMES);
    assert_eq!(MAX_RECENT_GAMES, 8);
    assert_eq!(
        recent(&stored).iter().map(|(_, id)| *id).collect::<Vec<_>>(),
        vec![50, 60, 70, 80, 90, 100, 110, 120]
    );
    assert_eq!(stored.stats_of(e2e4()).total(), 12);
    entry.truncate();
    assert_eq!(recent(&entry), recent(&stored));
    assert_eq!(entry.to_bytes(), stored.to_bytes());
}

#[test]
fn storing_between_folds_changes_nothing_that_is_stored() {
    let many = |from: u64| -> PersonalEntry {
        let games: Vec<(UciMove, u64, Option<Color>, u16)> =
            (0..7).map(|n| (d2d4(), from + 3 * n, Some(Color::White), 1400)).collect();
        personal(&games)
    };
    let a = many(1);
    let b = many(2);
    let c = many(3);
    let mut whole = PersonalEntry::new();
    whole.extend(&a);
    whole.extend(&b);
    whole.extend(&c);
    let mut ab = PersonalEntry::new();
    ab.extend(&a);
    ab.extend(&b);
    let mut staged = PersonalEntry::from_bytes(&ab.to_bytes()).unwrap();
    staged.extend(&c);
    assert_eq!(whole.recent_count(), 21);
    assert_eq!(staged.to_bytes(), whole.to_bytes());
    let stored = PersonalEntry::from_bytes(&whole.to_bytes()).unwrap();
    assert_eq!(
        recent(&stored).iter().map(|(_, id)| *id).collect::<Vec<_>>(),
        vec![14, 15, 16, 17, 18, 19, 20, 21]
    );
}

#[test]
fn personal_binary_roundtrip() {
    let entry = personal(&[
        (e2e4(), 500, Some(Color::White), 1500),
        (d2d4(), 300, None, 1600),
        (UciMove::Null, 9, Some(Color::Black), 65535),
        (UciMove::Put { role: 5, to: 63 }, 218_340_105_584_895, None, 0),
    ]);
    let bytes = entry.to_bytes();
    let back = PersonalEntry::from_bytes(&bytes).unwrap();
    assert_eq!(back.moves(), entry.moves());
    assert_eq!(recent(&back), recent(&entry));
    assert_eq!(back.to_bytes(), bytes);
    let mut longer = bytes.clone();
    longer.push(1);
    let mut reader = Reader::new(&longer);
    let first = PersonalEntry::read(&mut reader).unwrap();
    assert_eq!(first.to_bytes(), bytes);
    assert_eq!(reader.remaining(), 1);
    let mut acc = PersonalEntry::new_single(e2e4(), id(1), None, 1);
    let mut reader = Reader::new(&bytes);
    assert_eq!(acc.extend_from_reader(&mut reader), Ok(()));
    assert_eq!(acc.stats_of(e2e4()).total(), 2);
    assert_eq!(acc.recent_count(), 5);
}

#[test]
fn personal_decoding_failures() {
    let good = personal(&[(e2e4(), 5, None, 1500), (d2d4(), 6, None, 1500)]).to_bytes();
    for cut in 0..good.len() {
        assert_eq!(
            PersonalEntry::from_bytes(&good[..cut]).err(),
            Some(DecodeError::UnexpectedEof)
        );
    }
    let mut trailing = good.clone();
    trailing.push(0);
    assert_eq!(PersonalEntry::from_bytes(&trailing).err(), Some(DecodeError::InvalidData));
    // the same move twice
    let twice = vec![2, 0x07, 0x0c, 1, 0, 0, 1, 0x07, 0x0c, 1, 0, 0, 1, 0];
    assert_eq!(PersonalEntry::from_bytes(&twice).err(), Some(DecodeError::InvalidData));
    // moves out of order
    let unsorted = vec![2, 0x07, 0x0c, 1, 0, 0, 1, 0x06, 0xcb, 1, 0, 0, 1, 0];
    assert_eq!(PersonalEntry::from_bytes(&unsorted).err(), Some(DecodeError::InvalidData));
    // a code that stands for no move
    let no_move = vec![1, 0x7f, 0xff, 1, 0, 0, 1, 0];
    assert_eq!(PersonalEntry::from_bytes(&no_move).err(), Some(DecodeError::InvalidData));
    // a game identifier beyond the limit
    let no_game = vec![0, 1, 0xff, 0xff, 0xff, 0xff, 0xff, 0xff, 0x07, 0x0c];
    assert_eq!(PersonalEntry::from_bytes(&no_game).err(), Some(DecodeError::InvalidData));
    // more pointers than are stored
    let mut crowded = vec![0, 9];
    for n in 1..=9u8 {
        crowded.extend_from_slice(&[0, 0, 0, 0, 0, n, 0x07, 0x0c]);
    }
    assert_eq!(PersonalEntry::from_bytes(&crowded).err(), Some(DecodeError::InvalidData));
    let mut full = vec![0, 8];
    for n in 1..=8u8 {
        full.extend_from_slice(&[0, 0, 0, 0, 0, n, 0x07, 0x0c]);
    }
    assert_eq!(PersonalEntry::from_bytes(&full).unwrap().recent_count(), 8);
    let mut acc = PersonalEntry::new_single(e2e4(), id(1), None, 1);
    let before = acc.to_bytes();
    let mut reader = Reader::new(&twice);
    assert_eq!(acc.extend_from_reader(&mut reader), Err(DecodeError::InvalidData));
    assert_eq!(acc.to_bytes(), before);
}

fn info(white: bool, black: bool, rating: u16) -> GameInfo {
    GameInfo {
        white: Player { name: b"ann".to_vec(), rating },
        black: Player { name: b"bob".to_vec(), rating: 1600 },
        winner: Some(Color::White),
        year: 2021,
        month: 7,
        event: Vec::new(),
        speed: Speed::Blitz,
        mode: Mode::Rated,
        indexed_white: white,
        indexed_black: black,
    }
}

#[test]
fn game_info_bytes() {
    let bytes = info(true, false, 1500).to_bytes();
    assert_eq!(
        bytes,
        vec![
            1, 2, 0, 1, 7, 0xe5, 0x0f, 0xdc, 0x0b, 0xc0, 0x0c, 3, b'a', b'n', b'n', 3, b'b', b'o',
            b'b', 0
        ]
    );
    assert_eq!(info(false, true, 1500).to_bytes()[3], 2);
    assert_eq!(info(true, true, 1500).to_bytes()[3], 3);
    assert_eq!(info(false, false, 1500).to_bytes()[3], 0);
}

#[test]
fn game_info_binary_roundtrip() {
    let mut game = info(false, true, 2850);
    game.event = b"Candidates 2021".to_vec();
    game.winner = None;
    game.speed = Speed::Correspondence;
    game.mode = Mode::Casual;
    game.month = 12;
    game.white.name = vec![b'x'; 300];
    let bytes = game.to_bytes();
    let back = GameInfo::from_bytes(&bytes).unwrap();
    assert_eq!(back.to_bytes(), bytes);
    assert_eq!(back.white.name, vec![b'x'; 300]);
    assert_eq!(back.white.rating, 2850);
    assert_eq!(back.black.name, b"bob".to_vec());
    assert_eq!(back.event, b"Candidates 2021".to_vec());
    assert_eq!(back.winner, None);
    assert_eq!(back.year, 2021);
    assert_eq!(back.month, 12);
    assert_eq!(back.speed, Speed::Correspondence);
    assert_eq!(back.mode, Mode::Casual);
    assert!(!back.indexed_white);
    assert!(back.indexed_black);
    assert_eq!(game.duplicate().to_bytes(), bytes);
}

#[test]
fn game_info_decoding_failures() {
    let good = info(true, false, 1500).to_bytes();
    for cut in 0..good.len() {
        assert_eq!(GameInfo::from_bytes(&good[..cut]).err(), Some(DecodeError::UnexpectedEof));
    }
    let mut trailing = good.clone();
    trailing.push(0);
    assert_eq!(GameInfo::from_bytes(&trailing).err(), Some(DecodeError::InvalidData));
    for (at, byte) in [(0usize, 3u8), (1, 6), (2, 2), (3, 4)] {
        let mut bad = good.clone();
        bad[at] = byte;
        assert_eq!(GameInfo::from_bytes(&bad).err(), Some(DecodeError::InvalidData));
    }
    // a rating that does not fit 16 bits
    let wide = vec![1, 2, 0, 1, 7, 0xe5, 0x0f, 0x80, 0x80, 0x04, 0xc0, 0x0c, 0, 0, 0];
    assert_eq!(GameInfo::from_bytes(&wide).err(), Some(DecodeError::InvalidData));
    // a name that is longer than the input
    let short = vec![1, 2, 0, 1, 7, 0xe5, 0x0f, 0xdc, 0x0b, 0xc0, 0x0c, 9, b'a'];
    assert_eq!(GameInfo::from_bytes(&short).err(), Some(DecodeError::UnexpectedEof));
}

#[test]
fn strings_stand_behind_their_length() {
    let mut out = Vec::new();
    write_bytes(&mut out, b"hello");
    write_bytes(&mut out, b"");
    assert_eq!(out, vec![5, b'h', b'e', b'l', b'l', b'o', 0]);
    let mut reader = Reader::new(&out);
    assert_eq!(read_bytes(&mut reader), Ok(b"hello".to_vec()));
    assert_eq!(read_bytes(&mut reader), Ok(Vec::new()));
    assert_eq!(read_bytes(&mut reader), Err(DecodeError::UnexpectedEof));
    let mut reader = Reader::new(&[0xff, 0xff, 0xff, 0xff, 0xff, 0xff, 0xff, 0xff, 0xff, 0x01, 1]);
    assert_eq!(read_bytes(&mut reader), Err(DecodeError::UnexpectedEof));
}

#[test]
fn game_info_merge_keeps_the_later_record_and_all_marks() {
    let older = info(true, false, 1500);
    let mut newer = info(false, false, 1777);
    newer.merge_onto(&older);
    assert!(newer.indexed_white);
    assert!(!newer.indexed_black);
    assert_eq!(newer.white.rating, 1777);
    let mut third = info(false, true, 1888);
    third.merge_onto(&newer);
    assert!(third.indexed_white);
    assert!(third.indexed_black);
    assert_eq!(third.white.rating, 1888);
}

fn master(games: &[(UciMove, u64, Option<Color>, u16, u16, u16)]) -> MasterEntry {
    let mut entry = MasterEntry::new();
    for (uci, game, winner, mover, opponent, year) in games {
        entry.extend(&MasterEntry::new_single(
            *uci,
            id(*game),
            *winner,
            *mover,
            *opponent,
            AnnoLichess::from_year(*year),
        ));
    }
    entry
}

fn games_of(entry: &MasterEntry, i: usize) -> Vec<(u16, u8, u64)> {
    (0..entry.game_count(i))
        .map(|j| entry.game_at(i, j))
        .map(|(rating, year, id)| (rating, year.to_byte(), id.to_u64()))
        .collect()
}

#[test]
fn master_entry_of_one_game() {
    let entry = MasterEntry::new_single(
        e2e4(),
        id(1),
        Some(Color::White),
        2500,
        2300,
        AnnoLichess::from_year(2021),
    );
    assert_eq!(entry.move_count(), 1);
    assert_eq!(
        entry.move_at(0),
        (e2e4(), Stats { white: 1, draws: 0, black: 0, rating_sum: 2500 })
    );
    assert_eq!(games_of(&entry, 0), vec![(2400, 121, 1)]);
    assert_eq!(entry.best_game_of(e2e4()), Some(id(1)));
    assert_eq!(entry.best_game_of(d2d4()), None);
    assert_eq!(
        entry.to_bytes(),
        vec![1, 0x07, 0x0c, 1, 0, 0, 0xc4, 0x13, 1, 0x09, 0x60, 121, 0, 0, 0, 0, 0, 1]
    );
    assert_eq!(MasterEntry::new().to_bytes(), vec![0]);
}

#[test]
fn ranks_of_master_games() {
    let rank = join_rank(2400, AnnoLichess::from_byte(11), id(1));
    assert_eq!(rank, ((2400u128 * 256 + 11) << 48) + 1);
    let (rating, year, game) = split_rank(rank);
    assert_eq!((rating, year.to_byte(), game.to_u64()), (2400, 11, 1));
    assert!(join_rank(2400, AnnoLichess::from_byte(11), id(9)) > rank);
    assert!(join_rank(2400, AnnoLichess::from_byte(12), id(0)) > rank);
    assert!(join_rank(2401, AnnoLichess::from_byte(0), id(0)) > rank);
}

#[test]
fn master_merge_sums_counters_and_ranks_games() {
    let entry = master(&[
        (e2e4(), 10, Some(Color::White), 2500, 2300, 2021),
        (d2d4(), 11, None, 2600, 2600, 2018),
        (e2e4(), 12, Some(Color::Black), 2700, 2701, 2015),
        (e2e4(), 13, None, 2500, 2301, 2019),
    ]);
    assert_eq!(
        entry.moves(),
        vec![
            (d2d4(), Stats { white: 0, draws: 1, black: 0, rating_sum: 2600 }),
            (e2e4(), Stats { white: 1, draws: 1, black: 1, rating_sum: 7700 }),
        ]
    );
    assert_eq!(games_of(&entry, 0), vec![(2600, 118, 11)]);
    assert_eq!(games_of(&entry, 1), vec![(2400, 119, 13), (2400, 121, 10), (2700, 115, 12)]);
    assert_eq!(entry.best_game_of(e2e4()), Some(id(12)));
    let bytes = entry.to_bytes();
    let back = MasterEntry::from_bytes(&bytes).unwrap();
    assert_eq!(back.to_bytes(), bytes);
    assert_eq!(back.moves(), entry.moves());
    assert_eq!(games_of(&back, 1), games_of(&entry, 1));
}

#[test]
fn master_moves_point_to_the_best_games_only() {
    let games: Vec<(UciMove, u64, Option<Color>, u16, u16, u16)> =
        (0..40).map(|n| (e2e4(), n, None, 2200 + 10 * n as u16, 2200, 2020)).collect();
    let entry = master(&games);
    assert_eq!(MAX_MASTER_GAMES, 15);
    assert_eq!(entry.game_count(0), 15);
    assert_eq!(entry.move_at(0).1.total(), 40);
    let kept: Vec<u64> = games_of(&entry, 0).into_iter().map(|(_, _, id)| id).collect();
    assert_eq!(kept, (25..40).collect::<Vec<u64>>());
    let mut reversed = games.clone();
    reversed.reverse();
    assert_eq!(master(&reversed).to_bytes(), entry.to_bytes());
    let mut left = master(&games[..20]);
    left.extend(&master(&games[20..]));
    assert_eq!(left.to_bytes(), entry.to_bytes());
    let mut right = master(&games[30..]);
    right.extend(&master(&games[..30]));
    assert_eq!(right.to_bytes(), entry.to_bytes());
    for i in 0..right.move_count() {
        assert!(right.game_count(i) <= MAX_MASTER_GAMES);
    }
}

#[test]
fn master_merge_does_not_depend_on_the_grouping() {
    let part = |from: u64| -> MasterEntry {
        let games: Vec<(UciMove, u64, Option<Color>, u16, u16, u16)> = (0..12)
            .map(|n| {
                let game = from + 3 * n;
                let uci = if game % 2 == 0 { e2e4() } else { d2d4() };
                (uci, game, Some(Color::White), 2300 + (game * 7 % 50) as u16, 2400, 2015)
            })
            .collect();
        master(&games)
    };
    let mut left = part(0);
    left.extend(&part(1));
    left.extend(&part(2));
    let mut bc = part(1);
    bc.extend(&part(2));
    let mut right = part(0);
    right.extend(&bc);
    assert_eq!(left.to_bytes(), right.to_bytes());
    assert_eq!(left.game_count(0), 15);
    assert_eq!(left.game_count(1), 15);
}

#[test]
fn master_decoding_failures() {
    let good = master(&[
        (e2e4(), 10, Some(Color::White), 2500, 2300, 2021),
        (e2e4(), 12, Some(Color::Black), 2700, 2701, 2015),
    ])
    .to_bytes();
    for cut in 0..good.len() {
        assert_eq!(MasterEntry::from_bytes(&good[..cut]).err(), Some(DecodeError::UnexpectedEof));
    }
    let mut trailing = good.clone();
    trailing.push(0);
    assert_eq!(MasterEntry::from_bytes(&trailing).err(), Some(DecodeError::InvalidData));
    // the same game twice
    let twice = vec![
        1, 0x07, 0x0c, 2, 0, 0, 0, 2, 0x09, 0x60, 11, 0, 0, 0, 0, 0, 1, 0x09, 0x60, 11, 0, 0, 0, 0,
        0, 1,
    ];
    assert_eq!(MasterEntry::from_bytes(&twice).err(), Some(DecodeError::InvalidData));
    // more games than are stored
    let mut crowded = vec![1, 0x07, 0x0c, 16, 0, 0, 0, 16];
    for n in 1..=16u8 {
        crowded.extend_from_slice(&[0x09, 0x60, 11, 0, 0, 0, 0, 0, n]);
    }
    assert_eq!(MasterEntry::from_bytes(&crowded).err(), Some(DecodeError::InvalidData));
    // the same move twice
    let moves = vec![2, 0x07, 0x0c, 0, 0, 0, 0, 0, 0x07, 0x0c, 0, 0, 0, 0, 0];
    assert_eq!(MasterEntry::from_bytes(&moves).err(), Some(DecodeError::InvalidData));
}
