//! What the masters played from one position in one year: for each move its
//! counters and the best games in which it was played.

use vstd::prelude::*;
use crate::model::assoc::{
    has_key, keys_of, lemma_assoc_insert, lemma_assoc_take, lemma_assoc_update, lemma_value_at,
    lemma_zip_keys, value_or, zip,
};
use crate::model::basic::Color;
use crate::model::endian::{be_bytes, lemma_be_bytes_len, lemma_be_limits, lemma_be_roundtrip};
use crate::model::game_id::{game_id_decoding, GameId, GAME_ID_LIMIT};
use crate::model::keyset::{increasing, lemma_largest, KeySet};
use crate::model::list::{
    lemma_list_decoding_step, lemma_list_decoding_stops, lemma_list_roundtrip, list_decoding,
    list_encoding, Decoded,
};
use crate::model::personal::valid_move_key;
use crate::model::top::{
    elements, is_top_of, lemma_top_of_elements, lemma_top_of_nothing, lemma_top_staged,
    lemma_top_unique, lower,
};
use crate::model::reader::{DecodeError, Reader};
use crate::model::stats::{lemma_stats_roundtrip, stats_decoding, stats_encoding, Stats};
use crate::model::uci::{
    code_decoding, code_encoding, lemma_code_roundtrip, read_code, uci_decoding, write_code, UciMove,
};
use crate::model::uint::{lemma_uint_roundtrip, read_uint, uint_decoding, uint_encoding, write_uint};
use crate::model::year::AnnoLichess;

verus! {

/// How many games a move of a stored entry points to at most.
pub const MAX_MASTER_GAMES: usize = 15;

/// `2` to the power `48`: the weight of the sort key in a rank.
pub const RANK_ID_SPAN: u128 = 0x1_0000_0000_0000;

/// The place of a game among the games of a move: by the mean rating of
/// the players, then by the year, then by the identifier.
pub open spec fn master_rank(rating: u16, year: u8, id: nat) -> u128 {
    ((rating * 256 + year) * RANK_ID_SPAN + id) as u128
}

/// Whether a rank is made of a rating, a year and a game identifier.
pub open spec fn valid_master_rank(rank: u128) -> bool {
    rank / RANK_ID_SPAN < 0x100_0000 && rank % RANK_ID_SPAN < GAME_ID_LIMIT
}

/// Whether `game` is the game of the highest rank: none for no game.
pub open spec fn is_best_game(games: Seq<u128>, game: Option<GameId>) -> bool {
    match game {
        Some(id) => games.len() > 0 && id.wf() && games.last() % RANK_ID_SPAN == id@,
        None => games.len() == 0,
    }
}

/// The counters of a move and the ranks of its games, increasing.
pub struct GroupView {
    pub stats: Stats,
    pub games: Seq<u128>,
}

impl GroupView {
    /// The group of no game.
    pub open spec fn empty() -> GroupView {
        GroupView { stats: Stats::zero(), games: Seq::empty() }
    }

    /// The ranks are valid and increasing, and no more than are stored.
    pub open spec fn wf(self) -> bool {
        &&& increasing(self.games)
        &&& self.games.len() <= MAX_MASTER_GAMES
        &&& forall|i: int| 0 <= i < self.games.len() ==> valid_master_rank(#[trigger] self.games[i])
    }
}

/// An entry as a value: the group of each move under the code of the move,
/// codes increasing.
pub struct MasterView {
    pub groups: Seq<(u128, GroupView)>,
}

impl MasterView {
    /// Keys are valid and increasing, and each group is well formed: in
    /// particular no move points to more games than are stored.
    pub open spec fn wf(self) -> bool {
        &&& increasing(keys_of(self.groups))
        &&& forall|i: int|
            0 <= i < self.groups.len() ==> valid_move_key(#[trigger] self.groups[i].0)
        &&& forall|i: int| 0 <= i < self.groups.len() ==> (#[trigger] self.groups[i]).1.wf()
    }

    /// The group of a move; the empty group where the move is absent.
    pub open spec fn group(self, key: u128) -> GroupView {
        value_or(self.groups, key, GroupView::empty())
    }

    /// The empty entry.
    pub open spec fn empty() -> MasterView {
        MasterView { groups: Seq::empty() }
    }

    /// Whether this entry is `a` and `b` folded together: it holds the moves
    /// of both with their counters summed, and for each move the best games
    /// of both.
    pub open spec fn is_merge_of(self, a: MasterView, b: MasterView) -> bool {
        &&& forall|k: u128| #[trigger]
            has_key(self.groups, k) <==> (has_key(a.groups, k) || has_key(b.groups, k))
        &&& forall|k: u128| #[trigger]
            self.group(k).stats == a.group(k).stats.plus(b.group(k).stats)
        &&& forall|k: u128|
            is_top_of(
                #[trigger] self.group(k).games,
                a.group(k).games,
                b.group(k).games,
                MAX_MASTER_GAMES as nat,
            )
    }
}

/// Folding is determined: two folds of the same entries are the same entry.
pub proof fn lemma_master_merge_determined(
    x: MasterView,
    y: MasterView,
    a: MasterView,
    b: MasterView,
)
    requires
        x.wf(),
        y.wf(),
        x.is_merge_of(a, b),
        y.is_merge_of(a, b),
    ensures
        x == y,
{
    let cap = MAX_MASTER_GAMES as nat;
    assert forall|k: u128| has_key(x.groups, k) <==> has_key(y.groups, k) by {
        assert(has_key(x.groups, k) <==> (has_key(a.groups, k) || has_key(b.groups, k)));
        assert(has_key(y.groups, k) <==> (has_key(a.groups, k) || has_key(b.groups, k)));
    }
    assert forall|k: u128| x.group(k) == y.group(k) by {
        assert(x.group(k).stats == a.group(k).stats.plus(b.group(k).stats));
        assert(y.group(k).stats == a.group(k).stats.plus(b.group(k).stats));
        assert(is_top_of(x.group(k).games, a.group(k).games, b.group(k).games, cap));
        assert(is_top_of(y.group(k).games, a.group(k).games, b.group(k).games, cap));
        lemma_top_of_elements(x.group(k).games, a.group(k).games, b.group(k).games, cap);
        lemma_top_of_elements(y.group(k).games, a.group(k).games, b.group(k).games, cap);
        lemma_top_unique(
            x.group(k).games,
            y.group(k).games,
            elements(a.group(k).games, b.group(k).games),
            cap,
        );
    }
    lemma_master_unique(x, y);
}

/// Two entries that hold the same moves with the same groups are the same
/// entry.
pub proof fn lemma_master_unique(x: MasterView, y: MasterView)
    requires
        x.wf(),
        y.wf(),
        forall|k: u128| has_key(x.groups, k) <==> has_key(y.groups, k),
        forall|k: u128| x.group(k) == y.group(k),
    ensures
        x == y,
{
    assert forall|k: u128| has_key(x.groups, k) implies crate::model::assoc::value_of(x.groups, k)
        == crate::model::assoc::value_of(y.groups, k) by {
        assert(x.group(k) == y.group(k));
    }
    crate::model::assoc::lemma_assoc_unique(x.groups, y.groups);
}

/// Folding does not depend on the grouping, although each fold drops all
/// but the best games: folding `a` with `b` and the result with `c` gives
/// the same entry as folding `a` with the fold of `b` and `c`.
pub proof fn lemma_master_merge_associative(
    a: MasterView,
    b: MasterView,
    c: MasterView,
    ab: MasterView,
    bc: MasterView,
    left: MasterView,
    right: MasterView,
)
    requires
        ab.is_merge_of(a, b),
        bc.is_merge_of(b, c),
        left.is_merge_of(ab, c),
        right.is_merge_of(a, bc),
        left.wf(),
        right.wf(),
    ensures
        left == right,
{
    let cap = MAX_MASTER_GAMES as nat;
    assert forall|k: u128| has_key(left.groups, k) <==> has_key(right.groups, k) by {
        assert(has_key(left.groups, k) <==> (has_key(ab.groups, k) || has_key(c.groups, k)));
        assert(has_key(ab.groups, k) <==> (has_key(a.groups, k) || has_key(b.groups, k)));
        assert(has_key(right.groups, k) <==> (has_key(a.groups, k) || has_key(bc.groups, k)));
        assert(has_key(bc.groups, k) <==> (has_key(b.groups, k) || has_key(c.groups, k)));
    }
    assert forall|k: u128| left.group(k) == right.group(k) by {
        assert(left.group(k).stats == ab.group(k).stats.plus(c.group(k).stats));
        assert(ab.group(k).stats == a.group(k).stats.plus(b.group(k).stats));
        assert(right.group(k).stats == a.group(k).stats.plus(bc.group(k).stats));
        assert(bc.group(k).stats == b.group(k).stats.plus(c.group(k).stats));
        Stats::lemma_plus_laws(a.group(k).stats, b.group(k).stats, c.group(k).stats);
        let ga = a.group(k).games;
        let gb = b.group(k).games;
        let gc = c.group(k).games;
        let gab = ab.group(k).games;
        let gbc = bc.group(k).games;
        let gl = left.group(k).games;
        let gr = right.group(k).games;
        assert(is_top_of(gab, ga, gb, cap));
        assert(is_top_of(gbc, gb, gc, cap));
        assert(is_top_of(gl, gab, gc, cap));
        assert(is_top_of(gr, ga, gbc, cap));
        lemma_top_of_elements(gab, ga, gb, cap);
        lemma_top_of_elements(gbc, gb, gc, cap);
        lemma_top_of_elements(gl, gab, gc, cap);
        lemma_top_of_elements(gr, ga, gbc, cap);
        let sa = Set::new(|x: u128| ga.contains(x));
        let sc = Set::new(|x: u128| gc.contains(x));
        assert(elements(gab, gc) =~= Set::new(|x: u128| gab.contains(x) || sc.contains(x)));
        lemma_top_staged(gab, gl, elements(ga, gb), sc, cap);
        assert(elements(ga, gbc) =~= Set::new(|x: u128| gbc.contains(x) || sa.contains(x)));
        lemma_top_staged(gbc, gr, elements(gb, gc), sa, cap);
        assert(elements(ga, gb).union(sc) =~= elements(gb, gc).union(sa));
        lemma_top_unique(gl, gr, elements(ga, gb).union(sc), cap);
    }
    lemma_master_unique(left, right);
}

/// A group of a well-formed entry is well formed.
pub proof fn lemma_group_wf(v: MasterView, key: u128)
    requires
        v.wf(),
    ensures
        v.group(key).wf(),
{
    if has_key(v.groups, key) {
        crate::model::assoc::lemma_has_key(v.groups, key);
        let i = crate::model::assoc::index_of(v.groups, key);
        assert(v.groups[i].1.wf());
    }
}

/// The counters and the best games of a move.
#[derive(Debug)]
pub struct MoveGroup {
    stats: Stats,
    games: KeySet,
}

impl View for MoveGroup {
    type V = GroupView;

    closed spec fn view(&self) -> GroupView {
        GroupView { stats: self.stats, games: self.games@ }
    }
}

/// The groups as values.
pub closed spec fn group_views(groups: Seq<MoveGroup>) -> Seq<GroupView> {
    Seq::new(groups.len(), |i: int| groups[i]@)
}

/// What the masters played from one position in one year.
#[derive(Debug)]
pub struct MasterEntry {
    moves: KeySet,
    groups: Vec<MoveGroup>,
}

impl View for MasterEntry {
    type V = MasterView;

    closed spec fn view(&self) -> MasterView {
        MasterView { groups: zip(self.moves@, group_views(self.groups@)) }
    }
}

impl MasterEntry {
    /// The entry is well formed as a value, and holds a group for each of
    /// its moves.
    pub closed spec fn wf(&self) -> bool {
        &&& self.groups@.len() == self.moves@.len()
        &&& self@.wf()
    }

    /// A well-formed entry is well formed as a value: no move points to more
    /// games than are stored.
    pub proof fn lemma_wf(&self)
        requires
            self.wf(),
        ensures
            self@.wf(),
            forall|i: int|
                0 <= i < self@.groups.len() ==> (#[trigger] self@.groups[i]).1.games.len()
                    <= MAX_MASTER_GAMES,
    {
        assert forall|i: int| 0 <= i < self@.groups.len() implies (#[trigger] self@.groups[i]).1.games.len()
            <= MAX_MASTER_GAMES by {
            assert(self@.groups[i].1.wf());
        }
    }

    proof fn lemma_shape(&self)
        ensures
            keys_of(self@.groups) == self.moves@,
            self@.groups.len() == self.moves@.len(),
            self.wf() ==> self.moves.wf(),
            self.wf() ==> forall|i: int|
                0 <= i < self.groups@.len() ==> (#[trigger] self.groups@[i]).games.wf()
                    && self.groups@[i]@ == self@.groups[i].1,
    {
        lemma_zip_keys(self.moves@, group_views(self.groups@));
        if self.wf() {
            assert forall|i: int| 0 <= i < self.groups@.len() implies (#[trigger] self.groups@[i]).games.wf()
                && self.groups@[i]@ == self@.groups[i].1 by {
                assert(self@.groups[i].1.wf());
            }
        }
    }

    /// The empty entry.
    pub fn new() -> (entry: MasterEntry)
        ensures
            entry.wf(),
            entry@ == MasterView::empty(),
    {
        let entry = MasterEntry { moves: KeySet::new(), groups: Vec::new() };
        proof {
            assert(entry@.groups =~= Seq::empty());
            assert(keys_of(entry@.groups) =~= Seq::empty());
        }
        entry
    }

    /// Number of moves.
    pub fn move_count(&self) -> (n: usize)
        requires
            self.wf(),
        ensures
            n == self@.groups.len(),
    {
        proof {
            self.lemma_shape();
        }
        self.moves.len()
    }

    /// The move at index `i`, in the order of the codes, and its counters.
    pub fn move_at(&self, i: usize) -> (r: (UciMove, Stats))
        requires
            self.wf(),
            i < self@.groups.len(),
        ensures
            r.0.wf(),
            r.0.code() as u128 == self@.groups[i as int].0,
            r.1 == self@.groups[i as int].1.stats,
    {
        proof {
            self.lemma_shape();
            assert(valid_move_key(self@.groups[i as int].0));
        }
        let key = self.moves.get(i);
        let uci = match UciMove::from_code(key as u16) {
            Some(uci) => uci,
            None => vstd::pervasive::unreached(),
        };
        (uci, self.groups[i].stats)
    }

    /// The moves with their counters, in the order of the codes.
    pub fn moves(&self) -> (moves: Vec<(UciMove, Stats)>)
        requires
            self.wf(),
        ensures
            moves@.len() == self@.groups.len(),
            forall|i: int|
                0 <= i < moves@.len() ==> (#[trigger] moves@[i]).0.wf() && moves@[i].0.code() as u128
                    == self@.groups[i].0 && moves@[i].1 == self@.groups[i].1.stats,
            forall|i: int, j: int|
                0 <= i < j < moves@.len() ==> (#[trigger] moves@[i]).0.code() != (
                #[trigger] moves@[j]).0.code(),
    {
        let n = self.move_count();
        let mut moves: Vec<(UciMove, Stats)> = Vec::new();
        let mut i: usize = 0;
        while i < n
            invariant
                i <= n,
                n == self@.groups.len(),
                self.wf(),
                moves@.len() == i,
                forall|k: int|
                    0 <= k < moves@.len() ==> (#[trigger] moves@[k]).0.wf() && moves@[k].0.code() as u128
                        == self@.groups[k].0 && moves@[k].1 == self@.groups[k].1.stats,
            decreases n - i,
        {
            let pair = self.move_at(i);
            moves.push(pair);
            i = i + 1;
        }
        proof {
            self.lemma_wf();
            assert forall|i: int, j: int| 0 <= i < j < moves@.len() implies (
            #[trigger] moves@[i]).0.code() != (#[trigger] moves@[j]).0.code() by {
                assert(keys_of(self@.groups)[i] < keys_of(self@.groups)[j]);
            }
        }
        moves
    }

    /// The best game of the move `uci`: none where the entry does not hold
    /// the move.
    pub fn best_game_of(&self, uci: UciMove) -> (r: Option<GameId>)
        requires
            self.wf(),
            uci.wf(),
        ensures
            is_best_game(self@.group(uci.code() as u128).games, r),
    {
        proof {
            self.lemma_shape();
            self.lemma_wf();
        }
        let key = uci.to_code() as u128;
        let (at, found) = self.moves.find(key);
        if !found {
            return None;
        }
        proof {
            assert(keys_of(self@.groups)[at as int] == key);
            lemma_value_at(self@.groups, at as int);
            assert(self@.groups[at as int].1.wf());
        }
        let count = self.game_count(at);
        if count == 0 {
            return None;
        }
        let (_, _, id) = self.game_at(at, count - 1);
        proof {
            id.lemma_bound();
            let rank = self@.groups[at as int].1.games[count - 1];
            assert(valid_master_rank(rank));
        }
        Some(id)
    }

    /// Number of games of the move at index `i`.
    pub fn game_count(&self, i: usize) -> (n: usize)
        requires
            self.wf(),
            i < self@.groups.len(),
        ensures
            n == self@.groups[i as int].1.games.len(),
            n <= MAX_MASTER_GAMES,
    {
        proof {
            self.lemma_shape();
            assert(self@.groups[i as int].1.wf());
        }
        self.groups[i].games.len()
    }

    /// The rank of the game at index `j` of the move at index `i`, the
    /// lowest rank first.
    pub fn game_rank(&self, i: usize, j: usize) -> (rank: u128)
        requires
            self.wf(),
            i < self@.groups.len(),
            j < self@.groups[i as int].1.games.len(),
        ensures
            rank == self@.groups[i as int].1.games[j as int],
            valid_master_rank(rank),
    {
        proof {
            self.lemma_shape();
            assert(self@.groups[i as int].1.wf());
        }
        self.groups[i].games.get(j)
    }

    /// The game at index `j` of the move at index `i`, the lowest rank
    /// first: the mean rating of its players, its year and its identifier.
    pub fn game_at(&self, i: usize, j: usize) -> (r: (u16, AnnoLichess, GameId))
        requires
            self.wf(),
            i < self@.groups.len(),
            j < self@.groups[i as int].1.games.len(),
        ensures
            r.2.wf(),
            master_rank(r.0, r.1@ as u8, r.2@) == self@.groups[i as int].1.games[j as int],
    {
        let rank = self.game_rank(i, j);
        split_rank(rank)
    }

    /// Folds one group into the entry: under the move `key`, the counters
    /// `stats` and the games `games`.
    fn add_group(&mut self, key: u128, stats: Stats, games: &KeySet)
        requires
            old(self).wf(),
            valid_move_key(key),
            (GroupView { stats, games: games@ }).wf(),
        ensures
            final(self).wf(),
            forall|k: u128| #[trigger]
                has_key(final(self)@.groups, k) <==> (has_key(old(self)@.groups, k) || k == key),
            forall|k: u128| k != key ==> #[trigger] final(self)@.group(k) == old(self)@.group(k),
            final(self)@.group(key).stats == old(self)@.group(key).stats.plus(stats),
            is_top_of(
                final(self)@.group(key).games,
                old(self)@.group(key).games,
                games@,
                MAX_MASTER_GAMES as nat,
            ),
    {
        proof {
            self.lemma_shape();
        }
        let ghost before = self@.groups;
        let ghost before_groups = self.groups@;
        let (at, inserted) = self.moves.insert(key);
        if inserted {
            let group = MoveGroup { stats, games: games.duplicate() };
            let ghost gv = group@;
            self.groups.insert(at, group);
            proof {
                self.lemma_shape();
                let after = self@.groups;
                assert(group_views(self.groups@) =~= group_views(before_groups).insert(
                    at as int,
                    gv,
                ));
                assert(after =~= before.insert(at as int, (key, gv)));
                lemma_assoc_insert(before, at as int, key, gv, GroupView::empty());
                Stats::lemma_plus_laws(stats, Stats::zero(), Stats::zero());
                assert forall|i: int| 0 <= i < after.len() implies valid_move_key(
                    #[trigger] after[i].0,
                ) by {
                    if i < at {
                        assert(after[i].0 == before[i].0);
                    } else if i > at {
                        assert(after[i].0 == before[i - 1].0);
                    }
                }
                assert forall|i: int| 0 <= i < after.len() implies (#[trigger] after[i]).1.wf() by {
                    if i < at {
                        assert(after[i] == before[i]);
                    } else if i > at {
                        assert(after[i] == before[i - 1]);
                    }
                }
                assert forall|k: u128| k != key implies #[trigger] self@.group(k) == old(
                    self,
                )@.group(k) by {
                    assert(value_or(after, k, GroupView::empty()) == if k == key {
                        gv
                    } else {
                        value_or(before, k, GroupView::empty())
                    });
                }
                assert(value_or(after, key, GroupView::empty()) == if key == key {
                    gv
                } else {
                    value_or(before, key, GroupView::empty())
                });
                assert(old(self)@.group(key) == GroupView::empty());
                assert(self@.group(key) == gv);
                assert forall|x: u128| !Seq::<u128>::empty().contains(x) by {}
            }
        } else {
            let mut group = self.groups.remove(at);
            let ghost old_group = group@;
            proof {
                lemma_value_at(before, at as int);
                assert(before[at as int].0 == key);
                assert(old_group == before[at as int].1);
                assert(old_group.wf());
                assert(old(self)@.group(key) == old_group);
            }
            group.stats = group.stats.combined(&stats);
            group.games.union_with(games);
            let ghost all = group.games@;
            proof {
                lemma_largest(all, MAX_MASTER_GAMES as nat);
            }
            group.games.keep_last(MAX_MASTER_GAMES);
            let ghost gv = group@;
            proof {
                assert forall|x: u128, y: u128|
                    (old_group.games.contains(x) || games@.contains(x)) && !gv.games.contains(x)
                        && #[trigger] gv.games.contains(y) implies #[trigger] lower(x, y) by {
                    assert(all.contains(x));
                }
                if exists|x: u128|
                    (old_group.games.contains(x) || games@.contains(x)) && !gv.games.contains(x) {
                    let x = choose|x: u128|
                        (old_group.games.contains(x) || games@.contains(x)) && !gv.games.contains(
                            x,
                        );
                    assert(all.contains(x));
                    assert(all.len() > MAX_MASTER_GAMES);
                }
                assert forall|x: u128| #[trigger] gv.games.contains(x) implies (
                old_group.games.contains(x) || games@.contains(x)) by {
                    assert(all.contains(x));
                }
                assert forall|i: int| 0 <= i < gv.games.len() implies valid_master_rank(
                    #[trigger] gv.games[i],
                ) by {
                    let x = gv.games[i];
                    assert(gv.games.contains(x));
                    assert(all.contains(x));
                    if old_group.games.contains(x) {
                        let m = choose|m: int|
                            0 <= m < old_group.games.len() && old_group.games[m] == x;
                        assert(valid_master_rank(old_group.games[m]));
                    } else {
                        let m = choose|m: int| 0 <= m < games@.len() && games@[m] == x;
                        assert(valid_master_rank(games@[m]));
                    }
                }
                assert(gv.wf());
            }
            self.groups.insert(at, group);
            proof {
                self.lemma_shape();
                let after = self@.groups;
                assert(self.groups@ =~= before_groups.update(at as int, self.groups@[at as int]));
                assert(group_views(self.groups@) =~= group_views(before_groups).update(
                    at as int,
                    gv,
                ));
                assert(after =~= before.update(at as int, (key, gv)));
                lemma_assoc_update(before, at as int, gv, GroupView::empty());
                assert forall|i: int| 0 <= i < after.len() implies valid_move_key(
                    #[trigger] after[i].0,
                ) by {
                    assert(after[i].0 == before[i].0);
                }
                assert forall|i: int| 0 <= i < after.len() implies (#[trigger] after[i]).1.wf() by {
                    if i != at {
                        assert(after[i] == before[i]);
                    }
                }
                assert forall|k: u128| #[trigger]
                    has_key(self@.groups, k) <==> (has_key(old(self)@.groups, k) || k == key) by {
                    assert(keys_of(after) == keys_of(before));
                }
                assert forall|k: u128| k != key implies #[trigger] self@.group(k) == old(
                    self,
                )@.group(k) by {
                    assert(value_or(after, k, GroupView::empty()) == if k == key {
                        gv
                    } else {
                        value_or(before, k, GroupView::empty())
                    });
                }
                assert(value_or(after, key, GroupView::empty()) == if key == key {
                    gv
                } else {
                    value_or(before, key, GroupView::empty())
                });
                assert(self@.group(key) == gv);
            }
        }
    }

    /// An entry of one game: the move played, with the counters of that
    /// game, and the pointer to it. The game ranks by the mean of the two
    /// ratings and by its year.
    pub fn new_single(
        uci: UciMove,
        id: GameId,
        winner: Option<Color>,
        mover_rating: u16,
        opponent_rating: u16,
        year: AnnoLichess,
    ) -> (entry: MasterEntry)
        requires
            uci.wf(),
            id.wf(),
        ensures
            entry.wf(),
            entry@ == single_master(
                uci,
                id@,
                winner,
                mover_rating,
                opponent_rating,
                year@ as u8,
            ),
    {
        let mut entry = MasterEntry::new();
        let stats = Stats::new_single(winner, mover_rating);
        let mean: u16 = ((mover_rating as u32 + opponent_rating as u32) / 2) as u16;
        let rank = join_rank(mean, year, id);
        let mut games = KeySet::new();
        games.insert(rank);
        proof {
            UciMove::lemma_code_roundtrip(uci);
            assert(games@ =~= seq![rank]);
            assert(keys_of(MasterView::empty().groups) =~= Seq::<u128>::empty());
        }
        entry.add_group(uci.to_code() as u128, stats, &games);
        proof {
            let key = uci.code() as u128;
            Stats::lemma_plus_laws(stats, Stats::zero(), Stats::zero());
            let got = entry@.group(key).games;
            assert forall|k: u128| has_key(entry@.groups, k) <==> k == key by {
                assert(has_key(entry@.groups, k) <==> (has_key(MasterView::empty().groups, k) || k
                    == key));
            }
            assert(games@.contains(rank)) by {
                assert(games@[0] == rank);
            }
            if !got.contains(rank) {
                assert(got.len() == MAX_MASTER_GAMES);
                assert(got.contains(got[0]));
                assert(games@.contains(got[0]) || Seq::<u128>::empty().contains(got[0]));
                let m = choose|m: int| 0 <= m < games@.len() && games@[m] == got[0];
            }
            assert forall|x: u128| got.contains(x) <==> games@.contains(x) by {
                if got.contains(x) {
                    assert(games@.contains(x) || Seq::<u128>::empty().contains(x));
                }
                if games@.contains(x) {
                    assert(x == rank);
                }
            }
            crate::model::keyset::lemma_increasing_unique(got, games@);
            let one = single_master(uci, id@, winner, mover_rating, opponent_rating, year@ as u8);
            let group = GroupView { stats, games: seq![rank] };
            assert(keys_of(one.groups) =~= seq![key]);
            assert(one.groups[0].1.wf());
            assert(one.wf());
            entry.lemma_wf();
            assert forall|k: u128| has_key(entry@.groups, k) <==> has_key(one.groups, k) by {
                if k == key {
                    assert(keys_of(one.groups)[0] == k);
                }
                if has_key(one.groups, k) {
                    assert(keys_of(one.groups)[0] == key);
                }
            }
            assert forall|k: u128| entry@.group(k) == one.group(k) by {
                if k == key {
                    lemma_value_at(one.groups, 0);
                    assert(entry@.group(k).stats == stats);
                    assert(entry@.group(k).games == seq![rank]);
                    assert(entry@.group(k) == group);
                } else {
                    assert(!has_key(one.groups, k));
                    assert(!has_key(entry@.groups, k));
                }
            }
            lemma_master_unique(entry@, one);
        }
        entry
    }

    /// Folds `other` into this entry: the counters of each move are summed,
    /// and of the games of both the best are kept.
    pub fn extend(&mut self, other: &MasterEntry)
        requires
            old(self).wf(),
            other.wf(),
        ensures
            final(self).wf(),
            final(self)@.is_merge_of(old(self)@, other@),
            forall|i: int|
                0 <= i < final(self)@.groups.len() ==> (#[trigger] final(self)@.groups[i]).1.games.len()
                    <= MAX_MASTER_GAMES,
    {
        let mut i: usize = 0;
        let n = other.move_count();
        proof {
            other.lemma_shape();
            assert forall|k: u128|
                is_top_of(
                    #[trigger] self@.group(k).games,
                    old(self)@.group(k).games,
                    Seq::<u128>::empty(),
                    MAX_MASTER_GAMES as nat,
                ) by {
                lemma_group_wf(self@, k);
            }
            assert forall|k: u128| #[trigger]
                self@.group(k).stats == old(self)@.group(k).stats.plus(
                    value_or(other@.groups.take(0), k, GroupView::empty()).stats,
                ) by {
                assert(keys_of(other@.groups.take(0)) =~= Seq::<u128>::empty());
                Stats::lemma_plus_laws(self@.group(k).stats, Stats::zero(), Stats::zero());
            }
            assert forall|k: u128| !has_key(other@.groups.take(0), k) by {
                assert(keys_of(other@.groups.take(0)) =~= Seq::<u128>::empty());
            }
        }
        while i < n
            invariant
                i <= n,
                n == other@.groups.len(),
                self.wf(),
                other.wf(),
                old(self)@.wf(),
                forall|k: u128| #[trigger]
                    has_key(self@.groups, k) <==> (has_key(old(self)@.groups, k) || has_key(
                        other@.groups.take(i as int),
                        k,
                    )),
                forall|k: u128| #[trigger]
                    self@.group(k).stats == old(self)@.group(k).stats.plus(
                        value_or(other@.groups.take(i as int), k, GroupView::empty()).stats,
                    ),
                forall|k: u128|
                    is_top_of(
                        #[trigger] self@.group(k).games,
                        old(self)@.group(k).games,
                        value_or(other@.groups.take(i as int), k, GroupView::empty()).games,
                        MAX_MASTER_GAMES as nat,
                    ),
            decreases n - i,
        {
            proof {
                other.lemma_shape();
                assert(valid_move_key(other@.groups[i as int].0));
                assert(other@.groups[i as int].1.wf());
            }
            let key = other.moves.get(i);
            let ghost before = self@;
            let ghost item = other@.groups[i as int].1;
            self.add_group(key, other.groups[i].stats, &other.groups[i].games);
            proof {
                lemma_assoc_take(other@.groups, i as int, GroupView::empty());
                let t0 = other@.groups.take(i as int);
                let t1 = other@.groups.take(i + 1);
                assert forall|k: u128| #[trigger]
                    has_key(self@.groups, k) <==> (has_key(old(self)@.groups, k) || has_key(
                        t1,
                        k,
                    )) by {
                    assert(has_key(self@.groups, k) <==> (has_key(before.groups, k) || k == key));
                    assert(has_key(before.groups, k) <==> (has_key(old(self)@.groups, k)
                        || has_key(t0, k)));
                    assert(has_key(t1, k) <==> (has_key(t0, k) || k == key));
                }
                assert forall|k: u128| #[trigger]
                    self@.group(k).stats == old(self)@.group(k).stats.plus(
                        value_or(t1, k, GroupView::empty()).stats,
                    ) by {
                    assert(before.group(k).stats == old(self)@.group(k).stats.plus(
                        value_or(t0, k, GroupView::empty()).stats,
                    ));
                    assert(value_or(t1, k, GroupView::empty()) == if k == key {
                        item
                    } else {
                        value_or(t0, k, GroupView::empty())
                    });
                    if k == key {
                        assert(!has_key(t0, k));
                        Stats::lemma_plus_laws(old(self)@.group(k).stats, Stats::zero(), item.stats);
                    } else {
                        assert(self@.group(k) == before.group(k));
                    }
                }
                assert forall|k: u128|
                    is_top_of(
                        #[trigger] self@.group(k).games,
                        old(self)@.group(k).games,
                        value_or(t1, k, GroupView::empty()).games,
                        MAX_MASTER_GAMES as nat,
                    ) by {
                    assert(is_top_of(
                        before.group(k).games,
                        old(self)@.group(k).games,
                        value_or(t0, k, GroupView::empty()).games,
                        MAX_MASTER_GAMES as nat,
                    ));
                    assert(value_or(t1, k, GroupView::empty()) == if k == key {
                        item
                    } else {
                        value_or(t0, k, GroupView::empty())
                    });
                    if k == key {
                        assert(!has_key(t0, k));
                        lemma_group_wf(old(self)@, k);
                        lemma_top_of_nothing(
                            before.group(k).games,
                            old(self)@.group(k).games,
                            MAX_MASTER_GAMES as nat,
                        );
                    } else {
                        assert(self@.group(k) == before.group(k));
                    }
                }
            }
            i = i + 1;
        }
        proof {
            assert(other@.groups.take(n as int) =~= other@.groups);
            self.lemma_wf();
        }
    }
}

/// The entry of one game: the move played, with the counters of that game
/// and the pointer to it.
pub open spec fn single_master(
    uci: UciMove,
    id: nat,
    winner: Option<Color>,
    mover_rating: u16,
    opponent_rating: u16,
    year: u8,
) -> MasterView {
    MasterView {
        groups: seq![
            (
                uci.code() as u128,
                GroupView {
                    stats: Stats::single(winner, mover_rating),
                    games: seq![master_rank(mean_rating(mover_rating, opponent_rating), year, id)],
                },
            ),
        ],
    }
}

/// The mean of two ratings, rounded down.
pub open spec fn mean_rating(a: u16, b: u16) -> u16 {
    ((a + b) / 2) as u16
}

/// Makes a rank of a rating, a year and a game.
pub fn join_rank(rating: u16, year: AnnoLichess, id: GameId) -> (rank: u128)
    requires
        id.wf(),
    ensures
        rank == master_rank(rating, year@ as u8, id@),
        valid_master_rank(rank),
{
    proof {
        id.lemma_bound();
    }
    let key: u128 = rating as u128 * 256 + year.to_byte() as u128;
    let rank = key * RANK_ID_SPAN + id.to_u64() as u128;
    proof {
        assert(rank / RANK_ID_SPAN == key && rank % RANK_ID_SPAN == id@) by (nonlinear_arith)
            requires
                rank == key * RANK_ID_SPAN + id@,
                id@ < RANK_ID_SPAN,
                RANK_ID_SPAN > 0,
        ;
    }
    rank
}

/// Takes a rank apart: the rating, the year and the game.
pub fn split_rank(rank: u128) -> (r: (u16, AnnoLichess, GameId))
    requires
        valid_master_rank(rank),
    ensures
        r.2.wf(),
        master_rank(r.0, r.1@ as u8, r.2@) == rank,
{
    let key = rank / RANK_ID_SPAN;
    let rating = (key / 256) as u16;
    let year = AnnoLichess::from_byte((key % 256) as u8);
    let id = match GameId::from_u64((rank % RANK_ID_SPAN) as u64) {
        Some(id) => id,
        None => vstd::pervasive::unreached(),
    };
    (rating, year, id)
}

/// The bytes of a game of a move: the rating, the year, the identifier.
pub open spec fn game_encoding(rank: u128) -> Seq<u8> {
    code_encoding(((rank / RANK_ID_SPAN) / 256) as u16) + seq![((rank / RANK_ID_SPAN) % 256) as u8]
        + be_bytes((rank % RANK_ID_SPAN) as nat, 6)
}

/// The game at the front of `s`, and the bytes behind it.
pub open spec fn game_decoding(s: Seq<u8>) -> Decoded<u128> {
    match code_decoding(s) {
        Err(e) => Err(e),
        Ok((rating, s1)) => if s1.len() < 1 {
            Err(DecodeError::UnexpectedEof)
        } else {
            match game_id_decoding(s1.skip(1)) {
                Err(e) => Err(e),
                Ok((id, s2)) => Ok((master_rank(rating, s1[0], id), s2)),
            }
        },
    }
}

/// The encoding of a game, as a function.
pub open spec fn game_encoder() -> spec_fn(u128) -> Seq<u8> {
    |rank: u128| game_encoding(rank)
}

/// The decoding of a game, as a function.
pub open spec fn game_decoder() -> spec_fn(Seq<u8>) -> Decoded<u128> {
    |s: Seq<u8>| game_decoding(s)
}

/// The bytes of a move and its group: the move, the counters, the number
/// of games, the games.
pub open spec fn group_encoding(item: (u128, GroupView)) -> Seq<u8> {
    code_encoding(item.0 as u16) + stats_encoding(item.1.stats) + uint_encoding(
        item.1.games.len(),
    ) + list_encoding(item.1.games, game_encoder())
}

/// The move and its group at the front of `s`, and the bytes behind. The
/// games must stand in increasing order and be no more than are stored.
#[verifier::opaque]
pub open spec fn group_decoding(s: Seq<u8>) -> Decoded<(u128, GroupView)> {
    match uci_decoding(s) {
        Err(e) => Err(e),
        Ok((uci, s1)) => match stats_decoding(s1) {
            Err(e) => Err(e),
            Ok((stats, s2)) => match uint_decoding(s2) {
                Err(e) => Err(e),
                Ok((m, s3)) => match list_decoding(s3, m, game_decoder()) {
                    Err(e) => Err(e),
                    Ok((games, s4)) => if increasing(games) && games.len() <= MAX_MASTER_GAMES {
                        Ok(((uci.code() as u128, GroupView { stats, games }), s4))
                    } else {
                        Err(DecodeError::InvalidData)
                    },
                },
            },
        },
    }
}

/// The encoding of a move and its group, as a function.
pub open spec fn group_encoder() -> spec_fn((u128, GroupView)) -> Seq<u8> {
    |item: (u128, GroupView)| group_encoding(item)
}

/// The decoding of a move and its group, as a function.
pub open spec fn group_decoder() -> spec_fn(Seq<u8>) -> Decoded<(u128, GroupView)> {
    |s: Seq<u8>| group_decoding(s)
}

/// The bytes of an entry: the number of moves, then each move with its
/// group.
pub open spec fn master_encoding(v: MasterView) -> Seq<u8> {
    uint_encoding(v.groups.len()) + list_encoding(v.groups, group_encoder())
}

/// The entry at the front of `s`, and the bytes behind. The moves must
/// stand in increasing order.
pub open spec fn master_decoding(s: Seq<u8>) -> Decoded<MasterView> {
    match uint_decoding(s) {
        Err(e) => Err(e),
        Ok((n, s1)) => match list_decoding(s1, n, group_decoder()) {
            Err(e) => Err(e),
            Ok((groups, s2)) => if increasing(keys_of(groups)) {
                Ok((MasterView { groups }, s2))
            } else {
                Err(DecodeError::InvalidData)
            },
        },
    }
}

/// The entry that the whole of `s` encodes.
pub open spec fn master_from_bytes(s: Seq<u8>) -> Result<MasterView, DecodeError> {
    match master_decoding(s) {
        Err(e) => Err(e),
        Ok((v, rest)) => if rest.len() == 0 {
            Ok(v)
        } else {
            Err(DecodeError::InvalidData)
        },
    }
}

/// A game of a move is read back from its bytes.
pub proof fn lemma_game_roundtrip(rank: u128, rest: Seq<u8>)
    requires
        valid_master_rank(rank),
    ensures
        game_decoding(game_encoding(rank) + rest) == Ok::<_, DecodeError>((rank, rest)),
{
    let key = rank / RANK_ID_SPAN;
    let rating = (key / 256) as u16;
    let year = (key % 256) as u8;
    let id = (rank % RANK_ID_SPAN) as nat;
    let tail = be_bytes(id, 6) + rest;
    let after = seq![year] + tail;
    let s = game_encoding(rank) + rest;
    assert(s =~= code_encoding(rating) + after);
    lemma_code_roundtrip(rating, after);
    assert(after.skip(1) =~= tail);
    lemma_be_bytes_len(id, 6);
    lemma_be_limits();
    lemma_be_roundtrip(id, 6);
    assert(tail.take(6) =~= be_bytes(id, 6));
    assert(tail.skip(6) =~= rest);
    assert(master_rank(rating, year, id) == rank) by (nonlinear_arith)
        requires
            rating == (rank / RANK_ID_SPAN) / 256,
            year == (rank / RANK_ID_SPAN) % 256,
            id == rank % RANK_ID_SPAN,
            RANK_ID_SPAN == 0x1_0000_0000_0000,
            master_rank(rating, year, id) == ((rating * 256 + year) * RANK_ID_SPAN + id) as u128,
    ;
}

/// A move and its group are read back from their bytes.
pub proof fn lemma_group_roundtrip(item: (u128, GroupView), rest: Seq<u8>)
    requires
        valid_move_key(item.0),
        item.1.wf(),
    ensures
        group_decoding(group_encoding(item) + rest) == Ok::<_, DecodeError>((item, rest)),
{
    reveal(group_decoding);
    let code = item.0 as u16;
    let e2 = stats_encoding(item.1.stats);
    let e3 = uint_encoding(item.1.games.len());
    let e4 = list_encoding(item.1.games, game_encoder());
    assert(group_encoding(item) + rest =~= code_encoding(code) + (e2 + (e3 + (e4 + rest))));
    lemma_code_roundtrip(code, e2 + (e3 + (e4 + rest)));
    UciMove::lemma_of_code(code);
    lemma_stats_roundtrip(item.1.stats, e3 + (e4 + rest));
    lemma_uint_roundtrip(item.1.games.len() as u64, e4 + rest);
    assert forall|i: int, r: Seq<u8>| 0 <= i < item.1.games.len() implies #[trigger] game_decoder()(
        game_encoder()(item.1.games[i]) + r,
    ) == Ok::<_, DecodeError>((item.1.games[i], r)) by {
        assert(valid_master_rank(item.1.games[i]));
        lemma_game_roundtrip(item.1.games[i], r);
    }
    lemma_list_roundtrip(item.1.games, game_encoder(), game_decoder(), rest);
}

/// An entry is read back from its bytes, whatever follows them.
pub proof fn lemma_master_roundtrip(v: MasterView, rest: Seq<u8>)
    requires
        v.wf(),
        v.groups.len() <= u64::MAX,
    ensures
        master_decoding(master_encoding(v) + rest) == Ok::<_, DecodeError>((v, rest)),
{
    let e1 = uint_encoding(v.groups.len());
    let e2 = list_encoding(v.groups, group_encoder());
    assert(master_encoding(v) + rest =~= e1 + (e2 + rest));
    lemma_uint_roundtrip(v.groups.len() as u64, e2 + rest);
    assert forall|i: int, r: Seq<u8>| 0 <= i < v.groups.len() implies #[trigger] group_decoder()(
        group_encoder()(v.groups[i]) + r,
    ) == Ok::<_, DecodeError>((v.groups[i], r)) by {
        assert(valid_move_key(v.groups[i].0));
        assert(v.groups[i].1.wf());
        lemma_group_roundtrip(v.groups[i], r);
    }
    lemma_list_roundtrip(v.groups, group_encoder(), group_decoder(), rest);
}

/// Reads `n` games of a move.
fn read_games(reader: &mut Reader, n: u64) -> (r: Result<Vec<u128>, DecodeError>)
    ensures
        match r {
            Ok(ranks) => list_decoding(old(reader)@, n as nat, game_decoder()) == Ok::<
                _,
                DecodeError,
            >((ranks@, final(reader)@)) && forall|i: int|
                0 <= i < ranks@.len() ==> valid_master_rank(#[trigger] ranks@[i]),
            Err(e) => list_decoding(old(reader)@, n as nat, game_decoder()) == Err::<
                (Seq<u128>, Seq<u8>),
                _,
            >(e),
        },
{
    let mut ranks: Vec<u128> = Vec::new();
    let mut i: u64 = 0;
    while i < n
        invariant
            i <= n,
            list_decoding(old(reader)@, i as nat, game_decoder()) == Ok::<_, DecodeError>(
                (ranks@, reader@),
            ),
            forall|j: int| 0 <= j < ranks@.len() ==> valid_master_rank(#[trigger] ranks@[j]),
        decreases n - i,
    {
        let ghost before = reader@;
        proof {
            lemma_list_decoding_step(old(reader)@, i as nat, game_decoder());
            if game_decoding(before) is Err {
                lemma_list_decoding_stops(old(reader)@, i as nat, n as nat, game_decoder());
            }
        }
        let rating = match read_code(reader) {
            Ok(rating) => rating,
            Err(e) => {
                return Err(e);
            },
        };
        let year = match reader.read_u8() {
            Ok(year) => year,
            Err(e) => {
                return Err(e);
            },
        };
        let id = match GameId::read(reader) {
            Ok(id) => id,
            Err(e) => {
                return Err(e);
            },
        };
        let rank = join_rank(rating, AnnoLichess::from_byte(year), id);
        ranks.push(rank);
        i = i + 1;
    }
    Ok(ranks)
}

/// Reads a move and its group.
fn read_group(reader: &mut Reader) -> (r: Result<(u128, MoveGroup), DecodeError>)
    ensures
        match r {
            Ok(item) => group_decoding(old(reader)@) == Ok::<_, DecodeError>(
                ((item.0, item.1@), final(reader)@),
            ) && valid_move_key(item.0) && item.1@.wf(),
            Err(e) => group_decoding(old(reader)@) == Err::<((u128, GroupView), Seq<u8>), _>(e),
        },
{
    proof {
        reveal(group_decoding);
    }
    let uci = match UciMove::read(reader) {
        Ok(uci) => uci,
        Err(e) => {
            return Err(e);
        },
    };
    let stats = match Stats::read(reader) {
        Ok(stats) => stats,
        Err(e) => {
            return Err(e);
        },
    };
    let m = match read_uint(reader) {
        Ok(m) => m,
        Err(e) => {
            return Err(e);
        },
    };
    let ranks = match read_games(reader, m) {
        Ok(ranks) => ranks,
        Err(e) => {
            return Err(e);
        },
    };
    let count = ranks.len();
    let games = match KeySet::from_vec(ranks) {
        Some(games) => games,
        None => {
            return Err(DecodeError::InvalidData);
        },
    };
    if count > MAX_MASTER_GAMES {
        return Err(DecodeError::InvalidData);
    }
    proof {
        UciMove::lemma_code_roundtrip(uci);
    }
    Ok((uci.to_code() as u128, MoveGroup { stats, games }))
}

impl MasterEntry {
    /// Appends the bytes of the entry.
    pub fn write(&self, out: &mut Vec<u8>)
        requires
            self.wf(),
        ensures
            final(out)@ == old(out)@ + master_encoding(self@),
    {
        proof {
            self.lemma_shape();
        }
        let n = self.moves.len();
        write_uint(out, n as u64);
        let ghost base = out@;
        let mut i: usize = 0;
        proof {
            assert(self@.groups.take(0) =~= Seq::empty());
            assert(out@ =~= base + list_encoding(self@.groups.take(0), group_encoder()));
        }
        while i < n
            invariant
                i <= n,
                n == self@.groups.len(),
                self.wf(),
                out@ == base + list_encoding(self@.groups.take(i as int), group_encoder()),
            decreases n - i,
        {
            let (uci, stats) = self.move_at(i);
            let ghost before = out@;
            let ghost item = self@.groups[i as int];
            write_code(out, uci.to_code());
            stats.write(out);
            let count = self.game_count(i);
            write_uint(out, count as u64);
            let ghost base2 = out@;
            let mut j: usize = 0;
            proof {
                assert(item.1.games.take(0) =~= Seq::empty());
                assert(out@ =~= base2 + list_encoding(item.1.games.take(0), game_encoder()));
            }
            while j < count
                invariant
                    j <= count,
                    i < n,
                    n == self@.groups.len(),
                    self.wf(),
                    item == self@.groups[i as int],
                    count == item.1.games.len(),
                    out@ == base2 + list_encoding(item.1.games.take(j as int), game_encoder()),
                decreases count - j,
            {
                let rank = self.game_rank(i, j);
                let ghost before2 = out@;
                let key = rank / RANK_ID_SPAN;
                write_code(out, (key / 256) as u16);
                out.push((key % 256) as u8);
                let id = match GameId::from_u64((rank % RANK_ID_SPAN) as u64) {
                    Some(id) => id,
                    None => vstd::pervasive::unreached(),
                };
                id.write(out);
                proof {
                    let t0 = item.1.games.take(j as int);
                    let t1 = item.1.games.take(j + 1);
                    assert(t1.drop_last() =~= t0);
                    assert(t1.last() == rank);
                    assert(out@ =~= before2 + game_encoding(rank));
                    assert(out@ =~= base2 + list_encoding(t1, game_encoder()));
                }
                j = j + 1;
            }
            proof {
                assert(item.1.games.take(count as int) =~= item.1.games);
                let t0 = self@.groups.take(i as int);
                let t1 = self@.groups.take(i + 1);
                assert(t1.drop_last() =~= t0);
                assert(t1.last() == item);
                assert(out@ =~= before + group_encoding(item));
                assert(out@ =~= base + list_encoding(t1, group_encoder()));
            }
            i = i + 1;
        }
        proof {
            assert(self@.groups.take(n as int) =~= self@.groups);
        }
    }

    /// The bytes of the entry.
    pub fn to_bytes(&self) -> (bytes: Vec<u8>)
        requires
            self.wf(),
        ensures
            bytes@ == master_encoding(self@),
    {
        let mut bytes: Vec<u8> = Vec::new();
        self.write(&mut bytes);
        proof {
            assert(Seq::<u8>::empty() + master_encoding(self@) =~= master_encoding(self@));
        }
        bytes
    }

    /// Reads an entry from the front of the reader.
    pub fn read(reader: &mut Reader) -> (r: Result<MasterEntry, DecodeError>)
        ensures
            match r {
                Ok(entry) => entry.wf() && master_decoding(old(reader)@) == Ok::<_, DecodeError>(
                    (entry@, final(reader)@),
                ),
                Err(e) => master_decoding(old(reader)@) == Err::<(MasterView, Seq<u8>), _>(e),
            },
    {
        let n = match read_uint(reader) {
            Ok(n) => n,
            Err(e) => {
                return Err(e);
            },
        };
        let ghost start = reader@;
        let mut keys: Vec<u128> = Vec::new();
        let mut groups: Vec<MoveGroup> = Vec::new();
        let mut i: u64 = 0;
        proof {
            assert(zip(keys@, group_views(groups@)) =~= Seq::empty());
        }
        while i < n
            invariant
                i <= n,
                keys@.len() == groups@.len(),
                uint_decoding(old(reader)@) == Ok::<_, DecodeError>((n as nat, start)),
                list_decoding(start, i as nat, group_decoder()) == Ok::<_, DecodeError>(
                    (zip(keys@, group_views(groups@)), reader@),
                ),
                forall|j: int| 0 <= j < keys@.len() ==> valid_move_key(#[trigger] keys@[j]),
                forall|j: int| 0 <= j < groups@.len() ==> (#[trigger] groups@[j])@.wf(),
            decreases n - i,
        {
            let ghost before = reader@;
            let ghost got = zip(keys@, group_views(groups@));
            proof {
                lemma_list_decoding_step(start, i as nat, group_decoder());
                if group_decoding(before) is Err {
                    lemma_list_decoding_stops(start, i as nat, n as nat, group_decoder());
                }
            }
            let (key, group) = match read_group(reader) {
                Ok(item) => item,
                Err(e) => {
                    return Err(e);
                },
            };
            let ghost gv = group@;
            keys.push(key);
            groups.push(group);
            proof {
                assert(group_views(groups@) =~= group_views(groups@.drop_last()).push(gv));
                assert(zip(keys@, group_views(groups@)) =~= got.push((key, gv)));
            }
            i = i + 1;
        }
        proof {
            lemma_zip_keys(keys@, group_views(groups@));
        }
        let ghost keys_view = keys@;
        let moves = match KeySet::from_vec(keys) {
            Some(moves) => moves,
            None => {
                return Err(DecodeError::InvalidData);
            },
        };
        let entry = MasterEntry { moves, groups };
        proof {
            entry.lemma_shape();
            assert forall|j: int| 0 <= j < entry@.groups.len() implies valid_move_key(
                #[trigger] entry@.groups[j].0,
            ) by {
                assert(entry@.groups[j].0 == keys_view[j]);
            }
            assert forall|j: int| 0 <= j < entry@.groups.len() implies (
            #[trigger] entry@.groups[j]).1.wf() by {
                assert(entry@.groups[j].1 == entry.groups@[j]@);
            }
        }
        Ok(entry)
    }

    /// Reads an entry from bytes that hold nothing else.
    pub fn from_bytes(bytes: &[u8]) -> (r: Result<MasterEntry, DecodeError>)
        ensures
            match r {
                Ok(entry) => entry.wf() && master_from_bytes(bytes@) == Ok::<_, DecodeError>(
                    entry@,
                ),
                Err(e) => master_from_bytes(bytes@) == Err::<MasterView, _>(e),
            },
    {
        let mut reader = Reader::new(bytes);
        let entry = match MasterEntry::read(&mut reader) {
            Ok(entry) => entry,
            Err(e) => {
                return Err(e);
            },
        };
        if reader.is_empty() {
            Ok(entry)
        } else {
            Err(DecodeError::InvalidData)
        }
    }
}

} // verus!
