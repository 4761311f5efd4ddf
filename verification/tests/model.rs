use opening_explorer::model::basic::{
    winner_from_byte, winner_to_byte, Color, Mode, Speed, Variant,
};
use opening_explorer::model::game_id::{GameId, GAME_ID_LIMIT};
use opening_explorer::model::key::{KeyBuilder, MasterKey, PersonalKey};
use opening_explorer::model::range::{lex_less, ScanRange};
use opening_explorer::model::reader::{DecodeError, Reader};
use opening_explorer::model::stats::Stats;
use opening_explorer::model::uci::UciMove;
use opening_explorer::model::user::UserId;
use opening_explorer::model::year::AnnoLichess;

#[test]
fn game_id_text_is_base_62_most_significant_first() {
    assert_eq!(GameId::parse(b"00000000").unwrap().to_u64(), 0);
    assert_eq!(GameId::parse(b"00000009").unwrap().to_u64(), 9);
    assert_eq!(GameId::parse(b"0000000A").unwrap().to_u64(), 10);
    assert_eq!(GameId::parse(b"0000000Z").unwrap().to_u64(), 35);
    assert_eq!(GameId::parse(b"0000000a").unwrap().to_u64(), 36);
    assert_eq!(GameId::parse(b"0000000z").unwrap().to_u64(), 61);
    assert_eq!(GameId::parse(b"00000010").unwrap().to_u64(), 62);
    assert_eq!(GameId::parse(b"zzzzzzzz").unwrap().to_u64(), GAME_ID_LIMIT - 1);
    assert_eq!(GAME_ID_LIMIT, 62u64.pow(8));
}

#[test]
fn game_id_text_roundtrip() {
    for text in [&b"00000000"[..], b"abcdefgh", b"ZZZZZZZZ", b"r0cKsDB9", b"zzzzzzzz"] {
        let id = GameId::parse(text).unwrap();
        assert_eq!(id.to_text(), text.to_vec());
    }
    for n in [0u64, 1, 61, 62, 3843, 1_108_152_157_446, GAME_ID_LIMIT - 1] {
        let id = GameId::from_u64(n).unwrap();
        assert_eq!(GameId::parse(&id.to_text()), Some(id));
    }
}

#[test]
fn game_id_rejects_bad_text() {
    assert_eq!(GameId::parse(b""), None);
    assert_eq!(GameId::parse(b"abcdefg"), None);
    assert_eq!(GameId::parse(b"abcdefghi"), None);
    assert_eq!(GameId::parse(b"abcd-fgh"), None);
    assert_eq!(GameId::parse(b"abcdefg "), None);
    assert_eq!(GameId::parse(b"abcdef\xc3\xa9"), None);
}

#[test]
fn game_id_rejects_numbers_beyond_the_limit() {
    assert!(GameId::from_u64(GAME_ID_LIMIT - 1).is_some());
    assert_eq!(GameId::from_u64(GAME_ID_LIMIT), None);
    assert_eq!(GameId::from_u64(u64::MAX), None);
}

#[test]
fn game_id_bytes_are_big_endian() {
    assert_eq!(GameId::from_u64(1).unwrap().to_bytes(), [0, 0, 0, 0, 0, 1]);
    assert_eq!(GameId::from_u64(0x0102_0304_0506).unwrap().to_bytes(), [1, 2, 3, 4, 5, 6]);
    assert_eq!(
        GameId::from_u64(GAME_ID_LIMIT - 1).unwrap().to_bytes(),
        [0xc6, 0x94, 0x44, 0x6f, 0x00, 0xff]
    );
}

#[test]
fn game_id_binary_roundtrip() {
    for n in [0u64, 1, 255, 256, 0x0102_0304_0506, GAME_ID_LIMIT - 1] {
        let id = GameId::from_u64(n).unwrap();
        let mut out = vec![7];
        id.write(&mut out);
        assert_eq!(out.len(), 7);
        assert_eq!(&out[1..], &id.to_bytes()[..]);
        out.push(9);
        let mut reader = Reader::new(&out[1..]);
        assert_eq!(GameId::read(&mut reader), Ok(id));
        assert_eq!(reader.remaining(), 1);
    }
}

#[test]
fn game_id_read_failures() {
    let mut reader = Reader::new(&[1, 2, 3, 4, 5]);
    assert_eq!(GameId::read(&mut reader), Err(DecodeError::UnexpectedEof));
    let mut reader = Reader::new(&[0xff; 6]);
    assert_eq!(GameId::read(&mut reader), Err(DecodeError::InvalidData));
    let mut reader = Reader::new(&[0xc6, 0x94, 0x44, 0x6f, 0x01, 0x00]);
    assert_eq!(GameId::read(&mut reader), Err(DecodeError::InvalidData));
}

#[test]
fn years_are_counted_from_the_epoch_and_clamped() {
    assert_eq!(AnnoLichess::from_year(1900).to_byte(), 0);
    assert_eq!(AnnoLichess::from_year(1899).to_byte(), 0);
    assert_eq!(AnnoLichess::from_year(0).to_byte(), 0);
    assert_eq!(AnnoLichess::from_year(1952).to_byte(), 52);
    assert_eq!(AnnoLichess::from_year(2010).to_byte(), 110);
    assert_eq!(AnnoLichess::from_year(2018).to_byte(), 118);
    assert_eq!(AnnoLichess::from_year(2021).year(), 2021);
    assert_eq!(AnnoLichess::from_year(1952).year(), 1952);
    assert_eq!(AnnoLichess::from_year(2153).to_byte(), 253);
    assert_eq!(AnnoLichess::from_year(2154).to_byte(), 254);
    assert_eq!(AnnoLichess::from_year(2155).to_byte(), 254);
    assert_eq!(AnnoLichess::from_year(u16::MAX).to_byte(), 254);
    assert_eq!(AnnoLichess::max().to_byte(), 255);
    assert!(AnnoLichess::max().is_max());
    assert!(!AnnoLichess::from_year(u16::MAX).is_max());
    assert_eq!(AnnoLichess::from_byte(7).succ().to_byte(), 8);
    assert_eq!(AnnoLichess::from_byte(254).succ().to_byte(), 255);
    assert_eq!(AnnoLichess::max().succ().to_byte(), 255);
}

#[test]
fn user_ids_are_lower_case() {
    assert_eq!(UserId::from_name(b"Alice").unwrap().as_bytes(), b"alice");
    assert_eq!(UserId::from_name(b"DrNykterstein").unwrap().as_bytes(), b"drnykterstein");
    assert_eq!(UserId::from_name(b"a_b-9").unwrap().as_bytes(), b"a_b-9");
    assert_eq!(UserId::from_name(b"Alice"), UserId::from_name(b"aLICE"));
    assert_eq!(UserId::from_name(b"a").unwrap().duplicate().as_bytes(), b"a");
}

#[test]
fn user_ids_reject_bad_handles() {
    assert!(UserId::from_name(b"").is_none());
    assert!(UserId::from_name(b"twentyonecharacters__").is_none());
    assert!(UserId::from_name(b"twentycharacters____").is_some());
    assert!(UserId::from_name(b"a b").is_none());
    assert!(UserId::from_name(b"a\0").is_none());
    assert!(UserId::from_name(b"caf\xc3\xa9").is_none());
}

#[test]
fn user_ids_are_padded_with_zero_bytes() {
    let mut out = vec![1];
    UserId::from_name(b"Ab").unwrap().write_padded(&mut out);
    let mut expected = vec![1, b'a', b'b'];
    expected.extend_from_slice(&[0; 18]);
    assert_eq!(out, expected);
}

#[test]
fn move_codes() {
    let e2e4 = UciMove::Normal { from: 12, to: 28, promotion: None };
    assert_eq!(e2e4.to_code(), 1804);
    let e7e8q = UciMove::Normal { from: 52, to: 60, promotion: Some(5) };
    assert_eq!(e7e8q.to_code(), 52 + 64 * 60 + 4096 * 5);
    let drop = UciMove::Put { role: 2, to: 21 };
    assert_eq!(drop.to_code(), 32768 + 21 + 64 * 2);
    assert_eq!(UciMove::Null.to_code(), 65535);
    assert_eq!(UciMove::Normal { from: 0, to: 0, promotion: None }.to_code(), 0);
    for uci in [e2e4, e7e8q, drop, UciMove::Null] {
        assert_eq!(UciMove::from_code(uci.to_code()), Some(uci));
    }
}

#[test]
fn move_codes_that_stand_for_no_move() {
    assert_eq!(UciMove::from_code(4096 * 7), None);
    assert_eq!(UciMove::from_code(32767), None);
    assert_eq!(UciMove::from_code(32768), None);
    assert_eq!(UciMove::from_code(32768 + 64 * 7), None);
    assert_eq!(UciMove::from_code(65534), None);
    assert_eq!(UciMove::from_code(32768 + 64), Some(UciMove::Put { role: 1, to: 0 }));
}

#[test]
fn every_code_of_a_move_gives_the_move_back() {
    let mut moves = 0u32;
    for code in 0..=u16::MAX {
        if let Some(uci) = UciMove::from_code(code) {
            assert!(uci.is_valid());
            assert_eq!(uci.to_code(), code);
            moves += 1;
        }
    }
    assert_eq!(moves, 64 * 64 * 7 + 64 * 6 + 1);
}

#[test]
fn moves_out_of_range_are_not_valid() {
    assert!(!UciMove::Normal { from: 64, to: 0, promotion: None }.is_valid());
    assert!(!UciMove::Normal { from: 0, to: 64, promotion: None }.is_valid());
    assert!(!UciMove::Normal { from: 0, to: 0, promotion: Some(7) }.is_valid());
    assert!(!UciMove::Normal { from: 0, to: 0, promotion: Some(0) }.is_valid());
    assert!(UciMove::Normal { from: 0, to: 0, promotion: Some(6) }.is_valid());
    assert!(!UciMove::Put { role: 0, to: 0 }.is_valid());
    assert!(!UciMove::Put { role: 7, to: 0 }.is_valid());
    assert!(!UciMove::Put { role: 1, to: 64 }.is_valid());
    assert!(UciMove::Put { role: 6, to: 63 }.is_valid());
}

#[test]
fn moves_are_two_bytes_high_byte_first() {
    let e2e4 = UciMove::Normal { from: 12, to: 28, promotion: None };
    let mut out = Vec::new();
    e2e4.write(&mut out);
    UciMove::Null.write(&mut out);
    assert_eq!(out, vec![0x07, 0x0c, 0xff, 0xff]);
    let mut reader = Reader::new(&out);
    assert_eq!(UciMove::read(&mut reader), Ok(e2e4));
    assert_eq!(UciMove::read(&mut reader), Ok(UciMove::Null));
    assert_eq!(UciMove::read(&mut reader), Err(DecodeError::UnexpectedEof));
    let mut reader = Reader::new(&[0x07]);
    assert_eq!(UciMove::read(&mut reader), Err(DecodeError::UnexpectedEof));
    let mut reader = Reader::new(&[0x7f, 0xff]);
    assert_eq!(UciMove::read(&mut reader), Err(DecodeError::InvalidData));
}

#[test]
fn small_enumerations_roundtrip() {
    for color in [Color::White, Color::Black] {
        assert_eq!(Color::from_byte(color.to_byte()), Some(color));
        assert_eq!(color.opposite().opposite(), color);
    }
    assert_eq!(Color::White.to_byte(), 0);
    assert_eq!(Color::Black.to_byte(), 1);
    assert_eq!(Color::White.opposite(), Color::Black);
    assert_eq!(Color::from_byte(2), None);
    let variants = [
        Variant::Chess,
        Variant::Atomic,
        Variant::Antichess,
        Variant::KingOfTheHill,
        Variant::ThreeCheck,
        Variant::Crazyhouse,
        Variant::RacingKings,
        Variant::Horde,
    ];
    for (i, variant) in variants.iter().enumerate() {
        assert_eq!(variant.to_byte() as usize, i);
        assert_eq!(Variant::from_byte(i as u8), Some(*variant));
    }
    assert_eq!(Variant::from_byte(8), None);
    let speeds = [
        Speed::UltraBullet,
        Speed::Bullet,
        Speed::Blitz,
        Speed::Rapid,
        Speed::Classical,
        Speed::Correspondence,
    ];
    for (i, speed) in speeds.iter().enumerate() {
        assert_eq!(speed.to_byte() as usize, i);
        assert_eq!(Speed::from_byte(i as u8), Some(*speed));
    }
    assert_eq!(Speed::from_byte(6), None);
    assert_eq!(Mode::from_byte(Mode::Rated.to_byte()), Some(Mode::Rated));
    assert_eq!(Mode::from_byte(Mode::Casual.to_byte()), Some(Mode::Casual));
    assert_eq!(Mode::from_byte(2), None);
    for winner in [None, Some(Color::White), Some(Color::Black)] {
        assert_eq!(winner_from_byte(winner_to_byte(winner)), Some(winner));
    }
    assert_eq!(winner_to_byte(None), 0);
    assert_eq!(winner_from_byte(3), None);
}

#[test]
fn stats_of_one_game() {
    let white = Stats::new_single(Some(Color::White), 2400);
    assert_eq!(white, Stats { white: 1, draws: 0, black: 0, rating_sum: 2400 });
    let draw = Stats::new_single(None, 2300);
    assert_eq!(draw, Stats { white: 0, draws: 1, black: 0, rating_sum: 2300 });
    let black = Stats::new_single(Some(Color::Black), 0);
    assert_eq!(black, Stats { white: 0, draws: 0, black: 1, rating_sum: 0 });
    assert!(white.is_single());
    assert!(!white.is_empty());
    assert_eq!(white.total(), 1);
    assert_eq!(white.average_rating(), Some(2400));
}

#[test]
fn stats_sum_and_mean() {
    let a = Stats { white: 3, draws: 2, black: 1, rating_sum: 12_000 };
    let b = Stats { white: 1, draws: 0, black: 4, rating_sum: 11_555 };
    let sum = a.combined(&b);
    assert_eq!(sum, Stats { white: 4, draws: 2, black: 5, rating_sum: 23_555 });
    assert_eq!(sum, b.combined(&a));
    assert_eq!(sum.total(), 11);
    assert_eq!(sum.average_rating(), Some(2141));
    assert!(!sum.is_single());
    assert_eq!(Stats::new().total(), 0);
    assert!(Stats::new().is_empty());
    assert_eq!(Stats::new().average_rating(), None);
    assert_eq!(a.combined(&Stats::new()), a);
}

#[test]
fn stats_hold_at_the_largest_value() {
    let big = Stats { white: u64::MAX, draws: u64::MAX - 1, black: 5, rating_sum: u64::MAX };
    let one = Stats { white: 1, draws: 1, black: 1, rating_sum: 1 };
    let sum = big.combined(&one);
    assert_eq!(sum, Stats { white: u64::MAX, draws: u64::MAX, black: 6, rating_sum: u64::MAX });
    assert_eq!(sum.total(), u64::MAX);
    let c = Stats { white: 7, draws: 7, black: 7, rating_sum: 7 };
    assert_eq!(big.combined(&one).combined(&c), big.combined(&one.combined(&c)));
}

#[test]
fn stats_binary_roundtrip() {
    let stats = Stats { white: 1, draws: 300, black: 0, rating_sum: 1500 };
    let mut out = Vec::new();
    stats.write(&mut out);
    assert_eq!(out, vec![1, 0xac, 0x02, 0, 0xdc, 0x0b]);
    out.push(42);
    let mut reader = Reader::new(&out);
    assert_eq!(Stats::read(&mut reader), Ok(stats));
    assert_eq!(reader.remaining(), 1);
    let mut reader = Reader::new(&out[..3]);
    assert_eq!(Stats::read(&mut reader), Err(DecodeError::UnexpectedEof));
}

#[test]
fn personal_key_layout() {
    let user = UserId::from_name(b"Ab").unwrap();
    let prefix = KeyBuilder::personal(&user, Color::Black)
        .with_zobrist(Variant::Atomic, 0x0102_0304_0506_0708_090a_0b0c_0d0e_0f10);
    let key = prefix.with_year(AnnoLichess::from_year(2018));
    let bytes = key.into_bytes();
    let mut expected = vec![b'a', b'b'];
    expected.extend_from_slice(&[0; 18]);
    expected.push(1);
    expected.push(1);
    expected.extend_from_slice(&[1, 2, 3, 4, 5, 6, 7, 8, 9, 10, 11, 12, 13, 14, 15, 16]);
    assert_eq!(prefix.into_bytes(), expected);
    expected.push(118);
    assert_eq!(bytes, expected);
    assert_eq!(bytes.len(), 39);
    assert_eq!(key.year().to_byte(), 118);
}

#[test]
fn master_key_layout() {
    let prefix = KeyBuilder::master().with_zobrist(Variant::Chess, 1);
    let key = prefix.with_year(AnnoLichess::from_year(2021));
    let mut expected = vec![0];
    expected.extend_from_slice(&[0; 15]);
    expected.push(1);
    assert_eq!(prefix.into_bytes(), expected);
    expected.push(121);
    assert_eq!(key.into_bytes(), expected);
    assert_eq!(key.prefix(), prefix);
    assert_eq!(key.year().to_byte(), 121);
    assert_eq!(prefix.hash(), 1);
    assert_eq!(prefix.variant(), Variant::Chess);
}

#[test]
fn keys_hold_their_prefix_and_differ_before_the_year() {
    let alice = UserId::from_name(b"alice").unwrap();
    let bob = UserId::from_name(b"bob").unwrap();
    let hashes = [0u128, 1, u128::MAX, 1 << 64];
    let mut prefixes = Vec::new();
    for user in [&alice, &bob] {
        for color in [Color::White, Color::Black] {
            for variant in [Variant::Chess, Variant::Horde] {
                for hash in hashes {
                    prefixes.push(KeyBuilder::personal(user, color).with_zobrist(variant, hash));
                }
            }
        }
    }
    for (i, p) in prefixes.iter().enumerate() {
        let pb = p.into_bytes();
        assert_eq!(pb.len(), 38);
        for year in [0u8, 8, 254] {
            let kb = p.with_year(AnnoLichess::from_byte(year)).into_bytes();
            assert_eq!(&kb[..38], &pb[..]);
            assert_eq!(kb[38], year);
        }
        for (j, q) in prefixes.iter().enumerate() {
            if i != j {
                let a = p.with_year(AnnoLichess::from_byte(3)).into_bytes();
                let b = q.with_year(AnnoLichess::from_byte(3)).into_bytes();
                assert!((0..38).any(|k| a[k] != b[k]));
            }
        }
    }
}

#[test]
fn byte_strings_are_ordered_as_in_the_store() {
    assert!(lex_less(&[], &[0]));
    assert!(!lex_less(&[], &[]));
    assert!(!lex_less(&[0], &[]));
    assert!(lex_less(&[1, 2], &[1, 3]));
    assert!(lex_less(&[1, 2], &[1, 2, 0]));
    assert!(!lex_less(&[1, 2, 0], &[1, 2]));
    assert!(lex_less(&[1, 255], &[2]));
    assert!(!lex_less(&[2], &[1, 255]));
    assert!(!lex_less(&[7, 7], &[7, 7]));
}

#[test]
fn scan_meets_the_years_of_one_prefix() {
    let user = UserId::from_name(b"alice").unwrap();
    let prefix = KeyBuilder::personal(&user, Color::White).with_zobrist(Variant::Chess, 77);
    let other = KeyBuilder::personal(&user, Color::White).with_zobrist(Variant::Chess, 78);
    let lower = KeyBuilder::personal(&user, Color::White).with_zobrist(Variant::Chess, 76);
    let range = prefix.scan(AnnoLichess::from_year(2020), AnnoLichess::from_year(2022));
    assert_eq!(range.from, prefix.with_year(AnnoLichess::from_byte(120)).into_bytes());
    assert_eq!(range.upper, prefix.with_year(AnnoLichess::from_byte(123)).into_bytes());
    for year in 0..=254u8 {
        let inside = (120..=122).contains(&year);
        let key = prefix.with_year(AnnoLichess::from_byte(year)).into_bytes();
        assert_eq!(range.contains(&key), inside);
        assert!(!range.contains(&other.with_year(AnnoLichess::from_byte(year)).into_bytes()));
        assert!(!range.contains(&lower.with_year(AnnoLichess::from_byte(year)).into_bytes()));
    }
}

#[test]
fn scan_up_to_the_sentinel_is_open_above() {
    let prefix = KeyBuilder::master().with_zobrist(Variant::Chess, 5);
    let range = prefix.scan(AnnoLichess::from_byte(0), AnnoLichess::max());
    for year in 0..=255u8 {
        assert!(range.contains(&prefix.with_year(AnnoLichess::from_byte(year)).into_bytes()));
    }
    let mut bound = prefix.with_year(AnnoLichess::max()).into_bytes();
    bound.push(0);
    assert_eq!(range.upper, bound);
    let next = KeyBuilder::master().with_zobrist(Variant::Chess, 6);
    let before = KeyBuilder::master().with_zobrist(Variant::Chess, 4);
    for year in [0u8, 254, 255] {
        assert!(!range.contains(&next.with_year(AnnoLichess::from_byte(year)).into_bytes()));
        assert!(!range.contains(&before.with_year(AnnoLichess::from_byte(year)).into_bytes()));
    }
    let range = prefix.scan(AnnoLichess::from_byte(200), AnnoLichess::from_byte(254));
    assert!(range.contains(&prefix.with_year(AnnoLichess::from_byte(254)).into_bytes()));
    assert!(!range.contains(&prefix.with_year(AnnoLichess::max()).into_bytes()));
    assert!(!range.contains(&prefix.with_year(AnnoLichess::from_byte(199)).into_bytes()));
    let range = prefix.scan(AnnoLichess::from_byte(4), AnnoLichess::from_byte(3));
    for year in 0..=254u8 {
        assert!(!range.contains(&prefix.with_year(AnnoLichess::from_byte(year)).into_bytes()));
    }
    let range = ScanRange { from: vec![1], upper: vec![3] };
    assert!(range.contains(&[1]));
    assert!(range.contains(&[2, 255]));
    assert!(!range.contains(&[3]));
    assert!(!range.contains(&[0, 9]));
}

#[test]
fn keys_are_read_back_from_their_bytes() {
    let prefix = KeyBuilder::master().with_zobrist(Variant::Horde, 0x0102_0304_0506_0708_090a_0b0c_0d0e_0f10);
    let key = prefix.with_year(AnnoLichess::from_byte(200));
    let bytes = key.into_bytes();
    assert_eq!(MasterKey::parse(&bytes), Some(key));
    assert_eq!(MasterKey::parse(&bytes).unwrap().prefix().hash(), 0x0102_0304_0506_0708_090a_0b0c_0d0e_0f10);
    assert_eq!(MasterKey::parse(&bytes[..17]), None);
    assert_eq!(MasterKey::parse(&[]), None);
    let mut longer = bytes.clone();
    longer.push(0);
    assert_eq!(MasterKey::parse(&longer), None);
    let mut other = bytes.clone();
    other[0] = 8;
    assert_eq!(MasterKey::parse(&other), None);
    other[0] = 0;
    assert_eq!(MasterKey::parse(&other).unwrap().prefix().variant(), Variant::Chess);

    let user = UserId::from_name(b"Some_Player-1").unwrap();
    let prefix = KeyBuilder::personal(&user, Color::Black).with_zobrist(Variant::Atomic, u128::MAX - 5);
    let bytes = prefix.with_year(AnnoLichess::from_year(2019)).into_bytes();
    let key = PersonalKey::parse(&bytes).unwrap();
    assert_eq!(key.into_bytes(), bytes);
    assert_eq!(key.year().to_byte(), 119);
    let full = UserId::from_name(b"twentycharacters____").unwrap();
    let bytes = KeyBuilder::personal(&full, Color::White)
        .with_zobrist(Variant::Chess, 0)
        .with_year(AnnoLichess::from_byte(0))
        .into_bytes();
    assert_eq!(PersonalKey::parse(&bytes).unwrap().into_bytes(), bytes);
    for (at, byte) in [(0usize, 0u8), (0, b'A'), (3, 0), (14, b'x'), (19, 1), (20, 2), (21, 8)] {
        let mut bad = prefix.with_year(AnnoLichess::from_year(2019)).into_bytes();
        bad[at] = byte;
        assert!(PersonalKey::parse(&bad).is_none());
    }
    assert!(PersonalKey::parse(&bytes[..38]).is_none());
    assert!(PersonalKey::parse(&[0; 39]).is_none());
}

#[test]
fn handles_are_taken_as_they_are_only_if_normalized() {
    assert_eq!(UserId::from_normalized(b"alice").unwrap().as_bytes(), b"alice");
    assert!(UserId::from_normalized(b"Alice").is_none());
    assert!(UserId::from_normalized(b"").is_none());
    assert!(UserId::from_normalized(b"twentyonecharacters__").is_none());
    assert!(UserId::from_normalized(b"a\0").is_none());
}
