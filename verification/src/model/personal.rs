//! What one player played from one position in one year: counters for each
//! move, and pointers to the latest games.

use vstd::prelude::*;
use crate::model::assoc::{
    has_key, keys_of, lemma_assoc_insert, lemma_assoc_take, lemma_assoc_unique,
    lemma_assoc_update, lemma_value_at, lemma_zip_keys, value_or, zip,
};
use crate::model::basic::Color;
use crate::model::endian::{be_bytes, lemma_be_bytes_len, lemma_be_limits, lemma_be_roundtrip};
use crate::model::game_id::{game_id_decoding, GameId, GAME_ID_LIMIT};
use crate::model::list::{
    lemma_list_decoding_step, lemma_list_decoding_stops, lemma_list_roundtrip, list_decoding,
    list_encoding, Decoded,
};
use crate::model::reader::{DecodeError, Reader};
use crate::model::stats::{lemma_stats_roundtrip, stats_decoding, stats_encoding};
use crate::model::uci::{code_encoding, lemma_code_roundtrip, uci_decoding, write_code};
use crate::model::uint::{lemma_uint_roundtrip, read_uint, uint_decoding, uint_encoding, write_uint};
use crate::model::keyset::{increasing, largest, lemma_increasing_unique, lemma_largest, KeySet};
use crate::model::stats::Stats;
use crate::model::top::{lemma_largest_is_top, lemma_top_staged, lemma_top_unique};
use crate::model::uci::UciMove;

verus! {

/// How many pointers to games a stored entry holds at most.
pub const MAX_RECENT_GAMES: usize = 8;

/// The place of a game pointer among the others: later games first, and
/// among the pointers to one game the code of the move decides.
pub open spec fn recent_rank(id: nat, code: u16) -> u128 {
    (id * 65536 + code) as u128
}

/// A rank gives back the game and the code that it was made of.
pub proof fn lemma_rank_parts(id: nat, code: u16)
    requires
        id < GAME_ID_LIMIT,
    ensures
        recent_rank(id, code) / 65536 == id,
        recent_rank(id, code) % 65536 == code,
{
}

/// Whether a key is the code of a move.
pub open spec fn valid_move_key(key: u128) -> bool {
    key < 65536 && UciMove::of_code(key as u16) is Some
}

/// Whether a rank is made of a game identifier and the code of a move.
pub open spec fn valid_rank(rank: u128) -> bool {
    rank / 65536 < GAME_ID_LIMIT && UciMove::of_code((rank % 65536) as u16) is Some
}

/// Whether `game` is the latest game among the pointers in which the move
/// with the given code was played: none where there is no such pointer.
pub open spec fn is_latest_game(recent: Seq<u128>, code: u16, game: Option<GameId>) -> bool {
    match game {
        Some(id) => id.wf() && recent.contains(recent_rank(id@, code)) && forall|x: u128|
            recent.contains(x) && x % 65536 == code ==> x <= recent_rank(id@, code),
        None => forall|x: u128| recent.contains(x) ==> x % 65536 != code,
    }
}

/// An entry as a value: the counters of each move under the code of the
/// move, codes increasing, and the ranks of the game pointers, increasing.
pub struct PersonalView {
    pub moves: Seq<(u128, Stats)>,
    pub recent: Seq<u128>,
}

impl PersonalView {
    /// Keys and ranks are valid and stand in increasing order.
    pub open spec fn wf(self) -> bool {
        &&& increasing(keys_of(self.moves))
        &&& forall|i: int| 0 <= i < self.moves.len() ==> valid_move_key(#[trigger] self.moves[i].0)
        &&& increasing(self.recent)
        &&& forall|i: int| 0 <= i < self.recent.len() ==> valid_rank(#[trigger] self.recent[i])
    }

    /// The counters of a move; those of no game where the move is absent.
    pub open spec fn stats(self, key: u128) -> Stats {
        value_or(self.moves, key, Stats::zero())
    }

    /// The entry with only the latest game pointers, as many as are stored.
    pub open spec fn truncated(self) -> PersonalView {
        PersonalView { moves: self.moves, recent: largest(self.recent, MAX_RECENT_GAMES as nat) }
    }

    /// Whether this entry is `a` and `b` folded together: it holds the moves
    /// of both with their counters summed, and the game pointers of both.
    pub open spec fn is_merge_of(self, a: PersonalView, b: PersonalView) -> bool {
        &&& forall|k: u128| #[trigger]
            has_key(self.moves, k) <==> (has_key(a.moves, k) || has_key(b.moves, k))
        &&& forall|k: u128| #[trigger] self.stats(k) == a.stats(k).plus(b.stats(k))
        &&& forall|x: u128| #[trigger]
            self.recent.contains(x) <==> (a.recent.contains(x) || b.recent.contains(x))
    }

    /// The empty entry.
    pub open spec fn empty() -> PersonalView {
        PersonalView { moves: Seq::empty(), recent: Seq::empty() }
    }
}

/// Two entries that hold the same moves with the same counters and the same
/// game pointers are the same entry.
pub proof fn lemma_personal_unique(a: PersonalView, b: PersonalView)
    requires
        a.wf(),
        b.wf(),
        forall|k: u128| has_key(a.moves, k) <==> has_key(b.moves, k),
        forall|k: u128| a.stats(k) == b.stats(k),
        forall|x: u128| a.recent.contains(x) <==> b.recent.contains(x),
    ensures
        a == b,
{
    assert forall|k: u128| has_key(a.moves, k) implies crate::model::assoc::value_of(a.moves, k)
        == crate::model::assoc::value_of(b.moves, k) by {
        assert(a.stats(k) == b.stats(k));
    }
    lemma_assoc_unique(a.moves, b.moves);
    lemma_increasing_unique(a.recent, b.recent);
}

/// Folding is determined: two folds of the same entries are the same entry.
pub proof fn lemma_merge_determined(
    x: PersonalView,
    y: PersonalView,
    a: PersonalView,
    b: PersonalView,
)
    requires
        x.wf(),
        y.wf(),
        x.is_merge_of(a, b),
        y.is_merge_of(a, b),
    ensures
        x == y,
{
    assert forall|k: u128| has_key(x.moves, k) <==> has_key(y.moves, k) by {
        assert(has_key(x.moves, k) <==> (has_key(a.moves, k) || has_key(b.moves, k)));
        assert(has_key(y.moves, k) <==> (has_key(a.moves, k) || has_key(b.moves, k)));
    }
    assert forall|k: u128| x.stats(k) == y.stats(k) by {
        assert(x.stats(k) == a.stats(k).plus(b.stats(k)));
        assert(y.stats(k) == a.stats(k).plus(b.stats(k)));
    }
    assert forall|v: u128| x.recent.contains(v) <==> y.recent.contains(v) by {
        assert(x.recent.contains(v) <==> (a.recent.contains(v) || b.recent.contains(v)));
        assert(y.recent.contains(v) <==> (a.recent.contains(v) || b.recent.contains(v)));
    }
    lemma_personal_unique(x, y);
}

/// Folding does not depend on the grouping: folding `a` with `b` and the
/// result with `c` gives the same entry as folding `a` with the fold of `b`
/// and `c`.
pub proof fn lemma_merge_associative(
    a: PersonalView,
    b: PersonalView,
    c: PersonalView,
    ab: PersonalView,
    bc: PersonalView,
    left: PersonalView,
    right: PersonalView,
)
    requires
        ab.is_merge_of(a, b),
        bc.is_merge_of(b, c),
        left.is_merge_of(ab, c),
        right.is_merge_of(a, bc),
        left.wf(),
        right.wf(),
    ensures
        left == right,
{
    assert forall|k: u128| has_key(left.moves, k) <==> has_key(right.moves, k) by {
        assert(has_key(left.moves, k) <==> (has_key(ab.moves, k) || has_key(c.moves, k)));
        assert(has_key(ab.moves, k) <==> (has_key(a.moves, k) || has_key(b.moves, k)));
        assert(has_key(right.moves, k) <==> (has_key(a.moves, k) || has_key(bc.moves, k)));
        assert(has_key(bc.moves, k) <==> (has_key(b.moves, k) || has_key(c.moves, k)));
    }
    assert forall|k: u128| left.stats(k) == right.stats(k) by {
        assert(left.stats(k) == ab.stats(k).plus(c.stats(k)));
        assert(ab.stats(k) == a.stats(k).plus(b.stats(k)));
        assert(right.stats(k) == a.stats(k).plus(bc.stats(k)));
        assert(bc.stats(k) == b.stats(k).plus(c.stats(k)));
        Stats::lemma_plus_laws(a.stats(k), b.stats(k), c.stats(k));
    }
    assert forall|x: u128| left.recent.contains(x) <==> right.recent.contains(x) by {
        assert(left.recent.contains(x) <==> (ab.recent.contains(x) || c.recent.contains(x)));
        assert(ab.recent.contains(x) <==> (a.recent.contains(x) || b.recent.contains(x)));
        assert(right.recent.contains(x) <==> (a.recent.contains(x) || bc.recent.contains(x)));
        assert(bc.recent.contains(x) <==> (b.recent.contains(x) || c.recent.contains(x)));
    }
    lemma_personal_unique(left, right);
}

/// Folding does not depend on the order of the two entries.
pub proof fn lemma_merge_commutative(
    a: PersonalView,
    b: PersonalView,
    ab: PersonalView,
    ba: PersonalView,
)
    requires
        ab.is_merge_of(a, b),
        ba.is_merge_of(b, a),
        ab.wf(),
        ba.wf(),
    ensures
        ab == ba,
{
    assert forall|k: u128| has_key(ab.moves, k) <==> has_key(ba.moves, k) by {
        assert(has_key(ab.moves, k) <==> (has_key(a.moves, k) || has_key(b.moves, k)));
        assert(has_key(ba.moves, k) <==> (has_key(b.moves, k) || has_key(a.moves, k)));
    }
    assert forall|k: u128| ab.stats(k) == ba.stats(k) by {
        assert(ab.stats(k) == a.stats(k).plus(b.stats(k)));
        assert(ba.stats(k) == b.stats(k).plus(a.stats(k)));
        Stats::lemma_plus_laws(a.stats(k), b.stats(k), Stats::zero());
    }
    assert forall|x: u128| ab.recent.contains(x) <==> ba.recent.contains(x) by {
        assert(ab.recent.contains(x) <==> (a.recent.contains(x) || b.recent.contains(x)));
        assert(ba.recent.contains(x) <==> (b.recent.contains(x) || a.recent.contains(x)));
    }
    lemma_personal_unique(ab, ba);
}

/// Storing the fold of `a` and `b` before folding it with `c` changes
/// nothing: what is stored of the one fold is what is stored of the other,
/// counters and game pointers alike.
pub proof fn lemma_fold_regrouping(
    a: PersonalView,
    b: PersonalView,
    c: PersonalView,
    ab: PersonalView,
    staged: PersonalView,
    whole: PersonalView,
)
    requires
        ab.wf(),
        ab.is_merge_of(a, b),
        staged.is_merge_of(ab.truncated(), c),
        whole.is_merge_of(ab, c),
        staged.wf(),
        whole.wf(),
    ensures
        forall|k: u128| staged.stats(k) == a.stats(k).plus(b.stats(k)).plus(c.stats(k)),
        staged.truncated() == whole.truncated(),
        ab.recent.len() <= MAX_RECENT_GAMES ==> staged == whole,
{
    assert forall|k: u128| has_key(staged.moves, k) <==> has_key(whole.moves, k) by {
        assert(has_key(staged.moves, k) <==> (has_key(ab.truncated().moves, k) || has_key(
            c.moves,
            k,
        )));
        assert(has_key(whole.moves, k) <==> (has_key(ab.moves, k) || has_key(c.moves, k)));
    }
    assert forall|k: u128| staged.stats(k) == whole.stats(k) && staged.stats(k) == a.stats(k).plus(
        b.stats(k),
    ).plus(c.stats(k)) by {
        assert(staged.stats(k) == ab.truncated().stats(k).plus(c.stats(k)));
        assert(whole.stats(k) == ab.stats(k).plus(c.stats(k)));
        assert(ab.stats(k) == a.stats(k).plus(b.stats(k)));
    }
    assert forall|k: u128| has_key(staged.moves, k) implies crate::model::assoc::value_of(
        staged.moves,
        k,
    ) == crate::model::assoc::value_of(whole.moves, k) by {
        assert(staged.stats(k) == whole.stats(k));
    }
    lemma_assoc_unique(staged.moves, whole.moves);
    let cap = MAX_RECENT_GAMES as nat;
    let inner = largest(ab.recent, cap);
    let s1 = Set::new(|x: u128| ab.recent.contains(x));
    let s2 = Set::new(|x: u128| c.recent.contains(x));
    lemma_largest_is_top(ab.recent, cap);
    lemma_largest_is_top(staged.recent, cap);
    lemma_largest_is_top(whole.recent, cap);
    let mid = Set::new(|x: u128| inner.contains(x) || s2.contains(x));
    assert(Set::new(|x: u128| staged.recent.contains(x)) =~= mid) by {
        assert forall|x: u128| staged.recent.contains(x) <==> mid.contains(x) by {
            assert(staged.recent.contains(x) <==> (ab.truncated().recent.contains(x)
                || c.recent.contains(x)));
        }
    }
    lemma_top_staged(inner, largest(staged.recent, cap), s1, s2, cap);
    assert(Set::new(|x: u128| whole.recent.contains(x)) =~= s1.union(s2)) by {
        assert forall|x: u128| whole.recent.contains(x) <==> s1.union(s2).contains(x) by {
            assert(whole.recent.contains(x) <==> (ab.recent.contains(x) || c.recent.contains(x)));
        }
    }
    lemma_top_unique(largest(staged.recent, cap), largest(whole.recent, cap), s1.union(s2), cap);
    if ab.recent.len() <= MAX_RECENT_GAMES {
        assert(ab.truncated() == ab);
        lemma_merge_determined(staged, whole, ab, c);
    }
}

/// What one player played from one position in one year.
#[derive(Debug)]
pub struct PersonalEntry {
    moves: KeySet,
    stats: Vec<Stats>,
    recent: KeySet,
}

impl View for PersonalEntry {
    type V = PersonalView;

    closed spec fn view(&self) -> PersonalView {
        PersonalView { moves: zip(self.moves@, self.stats@), recent: self.recent@ }
    }
}

impl PersonalEntry {
    /// The entry is well formed as a value, and holds counters for each of
    /// its moves.
    pub closed spec fn wf(&self) -> bool {
        &&& self.stats@.len() == self.moves@.len()
        &&& self@.wf()
    }

    /// A well-formed entry is well formed as a value.
    pub proof fn lemma_wf(&self)
        requires
            self.wf(),
        ensures
            self@.wf(),
    {
    }

    proof fn lemma_shape(&self)
        ensures
            keys_of(self@.moves) == self.moves@,
            self@.moves.len() == self.moves@.len(),
            self.wf() ==> self.moves.wf() && self.recent.wf(),
    {
        lemma_zip_keys(self.moves@, self.stats@);
    }

    /// The empty entry.
    pub fn new() -> (entry: PersonalEntry)
        ensures
            entry.wf(),
            entry@ == PersonalView::empty(),
    {
        let entry = PersonalEntry { moves: KeySet::new(), stats: Vec::new(), recent: KeySet::new() };
        proof {
            assert(entry@.moves =~= Seq::empty());
            assert(keys_of(entry@.moves) =~= Seq::empty());
        }
        entry
    }

    /// Number of moves.
    pub fn move_count(&self) -> (n: usize)
        requires
            self.wf(),
        ensures
            n == self@.moves.len(),
    {
        proof {
            self.lemma_shape();
        }
        self.moves.len()
    }

    /// The move at index `i`, in the order of the codes, and its counters.
    pub fn move_at(&self, i: usize) -> (r: (UciMove, Stats))
        requires
            self.wf(),
            i < self@.moves.len(),
        ensures
            r.0.wf(),
            r.0.code() as u128 == self@.moves[i as int].0,
            r.1 == self@.moves[i as int].1,
    {
        proof {
            self.lemma_shape();
        }
        let key = self.moves.get(i);
        proof {
            assert(valid_move_key(self@.moves[i as int].0));
        }
        let uci = match UciMove::from_code(key as u16) {
            Some(uci) => uci,
            None => vstd::pervasive::unreached(),
        };
        (uci, self.stats[i])
    }

    /// The moves with their counters, in the order of the codes.
    pub fn moves(&self) -> (moves: Vec<(UciMove, Stats)>)
        requires
            self.wf(),
        ensures
            moves@.len() == self@.moves.len(),
            forall|i: int|
                0 <= i < moves@.len() ==> (#[trigger] moves@[i]).0.wf() && moves@[i].0.code() as u128
                    == self@.moves[i].0 && moves@[i].1 == self@.moves[i].1,
            forall|i: int, j: int|
                0 <= i < j < moves@.len() ==> (#[trigger] moves@[i]).0.code() != (
                #[trigger] moves@[j]).0.code(),
    {
        let n = self.move_count();
        let mut moves: Vec<(UciMove, Stats)> = Vec::new();
        let mut i: usize = 0;
        while i < n
            invariant
                i <= n,
                n == self@.moves.len(),
                self.wf(),
                moves@.len() == i,
                forall|k: int|
                    0 <= k < moves@.len() ==> (#[trigger] moves@[k]).0.wf() && moves@[k].0.code() as u128
                        == self@.moves[k].0 && moves@[k].1 == self@.moves[k].1,
            decreases n - i,
        {
            let pair = self.move_at(i);
            moves.push(pair);
            i = i + 1;
        }
        proof {
            assert forall|i: int, j: int| 0 <= i < j < moves@.len() implies (
            #[trigger] moves@[i]).0.code() != (#[trigger] moves@[j]).0.code() by {
                assert(keys_of(self@.moves)[i] < keys_of(self@.moves)[j]);
            }
        }
        moves
    }

    /// Number of game pointers held, stored or not.
    pub fn recent_count(&self) -> (n: usize)
        ensures
            n == self@.recent.len(),
    {
        self.recent.len()
    }

    /// The game pointer at index `i`, the earliest game first: the move and
    /// the game in which it was played.
    pub fn recent_at(&self, i: usize) -> (r: (UciMove, GameId))
        requires
            self.wf(),
            i < self@.recent.len(),
        ensures
            r.0.wf(),
            r.1.wf(),
            recent_rank(r.1@, r.0.code()) == self@.recent[i as int],
    {
        let rank = self.recent.get(i);
        proof {
            assert(valid_rank(self@.recent[i as int]));
        }
        let uci = match UciMove::from_code((rank % 65536) as u16) {
            Some(uci) => uci,
            None => vstd::pervasive::unreached(),
        };
        let id = match GameId::from_u64((rank / 65536) as u64) {
            Some(id) => id,
            None => vstd::pervasive::unreached(),
        };
        (uci, id)
    }

    /// The counters of the move `uci`: those of no game where the entry does
    /// not hold the move.
    pub fn stats_of(&self, uci: UciMove) -> (stats: Stats)
        requires
            self.wf(),
            uci.wf(),
        ensures
            stats == self@.stats(uci.code() as u128),
            has_key(self@.moves, uci.code() as u128) ==> exists|i: int|
                0 <= i < self@.moves.len() && self@.moves[i] == (uci.code() as u128, stats),
    {
        proof {
            self.lemma_shape();
        }
        let key = uci.to_code() as u128;
        let (at, found) = self.moves.find(key);
        if found {
            proof {
                assert(keys_of(self@.moves)[at as int] == key);
                lemma_value_at(self@.moves, at as int);
            }
            self.stats[at]
        } else {
            Stats::new()
        }
    }

    /// The latest game in which `uci` was played, among the game pointers
    /// that the entry holds.
    pub fn latest_game_of(&self, uci: UciMove) -> (r: Option<GameId>)
        requires
            self.wf(),
            uci.wf(),
        ensures
            is_latest_game(self@.recent, uci.code(), r),
    {
        proof {
            self.lemma_shape();
        }
        let code = uci.to_code() as u128;
        let ghost wanted: u16 = uci.code();
        let mut i: usize = self.recent.len();
        while i > 0
            invariant
                i <= self@.recent.len(),
                self.wf(),
                code == wanted,
                wanted == uci.code(),
                forall|j: int| i <= j < self@.recent.len() ==> self@.recent[j] % 65536 != code,
            decreases i,
        {
            i = i - 1;
            let rank = self.recent.get(i);
            if rank % 65536 == code {
                let (found, id) = self.recent_at(i);
                proof {
                    id.lemma_bound();
                    lemma_rank_parts(id@, found.code());
                    assert(found.code() == wanted);
                    assert forall|x: u128|
                        self@.recent.contains(x) && x % 65536 == wanted implies x <= recent_rank(
                        id@,
                        wanted,
                    ) by {
                        let j = choose|j: int| 0 <= j < self@.recent.len() && self@.recent[j] == x;
                        if j > i {
                            assert(self@.recent[j] % 65536 != code);
                        }
                        if j < i {
                            assert(self@.recent[j] < self@.recent[i as int]);
                        }
                    }
                    assert(self@.recent.contains(recent_rank(id@, wanted))) by {
                        assert(self@.recent[i as int] == recent_rank(id@, wanted));
                    }
                }
                return Some(id);
            }
        }
        proof {
            assert forall|x: u128| self@.recent.contains(x) implies x % 65536 != wanted by {
                let j = choose|j: int| 0 <= j < self@.recent.len() && self@.recent[j] == x;
                assert(self@.recent[j] % 65536 != code);
            }
        }
        None
    }

    /// Counts the games of `stats` under the move `uci`.
    pub fn add_move(&mut self, uci: UciMove, stats: Stats)
        requires
            old(self).wf(),
            uci.wf(),
        ensures
            final(self).wf(),
            final(self)@.recent == old(self)@.recent,
            forall|k: u128| #[trigger]
                has_key(final(self)@.moves, k) <==> (has_key(old(self)@.moves, k) || k
                    == uci.code() as u128),
            forall|k: u128| #[trigger]
                final(self)@.stats(k) == if k == uci.code() as u128 {
                    old(self)@.stats(k).plus(stats)
                } else {
                    old(self)@.stats(k)
                },
    {
        proof {
            self.lemma_shape();
        }
        let code = uci.to_code();
        let key = code as u128;
        let ghost before = self@.moves;
        let (at, inserted) = self.moves.insert(key);
        if inserted {
            self.stats.insert(at, stats);
            proof {
                self.lemma_shape();
                let after = self@.moves;
                assert(after =~= before.insert(at as int, (key, stats)));
                lemma_assoc_insert(before, at as int, key, stats, Stats::zero());
                Stats::lemma_plus_laws(stats, Stats::zero(), Stats::zero());
                assert forall|i: int| 0 <= i < after.len() implies valid_move_key(
                    #[trigger] after[i].0,
                ) by {
                    if i < at {
                        assert(after[i].0 == before[i].0);
                    } else if i > at {
                        assert(after[i].0 == before[i - 1].0);
                    }
                }
                assert forall|k: u128| #[trigger]
                    self@.stats(k) == if k == key {
                        old(self)@.stats(k).plus(stats)
                    } else {
                        old(self)@.stats(k)
                    } by {
                    assert(value_or(after, k, Stats::zero()) == if k == key {
                        stats
                    } else {
                        value_or(before, k, Stats::zero())
                    });
                }
            }
        } else {
            let sum = self.stats[at].combined(&stats);
            self.stats.set(at, sum);
            proof {
                self.lemma_shape();
                let after = self@.moves;
                assert(before[at as int].0 == key);
                assert(after =~= before.update(at as int, (key, sum)));
                lemma_assoc_update(before, at as int, sum, Stats::zero());
                lemma_value_at(before, at as int);
                assert forall|i: int| 0 <= i < after.len() implies valid_move_key(
                    #[trigger] after[i].0,
                ) by {
                    assert(after[i].0 == before[i].0);
                }
                assert forall|k: u128| #[trigger]
                    has_key(self@.moves, k) <==> (has_key(old(self)@.moves, k) || k == key) by {
                    assert(keys_of(after) == keys_of(before));
                }
                assert forall|k: u128| #[trigger]
                    self@.stats(k) == if k == key {
                        old(self)@.stats(k).plus(stats)
                    } else {
                        old(self)@.stats(k)
                    } by {
                    assert(value_or(after, k, Stats::zero()) == if k == key {
                        sum
                    } else {
                        value_or(before, k, Stats::zero())
                    });
                }
            }
        }
    }

    /// Points to the game `id`, in which `uci` was played.
    pub fn add_recent(&mut self, uci: UciMove, id: GameId)
        requires
            old(self).wf(),
            uci.wf(),
            id.wf(),
        ensures
            final(self).wf(),
            final(self)@.moves == old(self)@.moves,
            forall|x: u128| #[trigger]
                final(self)@.recent.contains(x) <==> (old(self)@.recent.contains(x) || x
                    == recent_rank(id@, uci.code())),
    {
        let rank: u128 = id.to_u64() as u128 * 65536 + uci.to_code() as u128;
        proof {
            self.lemma_shape();
            id.lemma_bound();
            assert(rank == recent_rank(id@, uci.code()));
            assert(rank / 65536 == id@ && rank % 65536 == uci.code());
        }
        let ghost before = self.recent@;
        let (at, inserted) = self.recent.insert(rank);
        proof {
            let after = self.recent@;
            assert forall|i: int| 0 <= i < after.len() implies valid_rank(#[trigger] after[i]) by {
                if inserted {
                    if i < at {
                        assert(after[i] == before[i]);
                    } else if i > at {
                        assert(after[i] == before[i - 1]);
                    }
                }
            }
        }
    }

    /// An entry of one game: the move played, with the counters of that
    /// game, and the pointer to it.
    pub fn new_single(uci: UciMove, id: GameId, winner: Option<Color>, opponent_rating: u16) -> (entry:
        PersonalEntry)
        requires
            uci.wf(),
            id.wf(),
        ensures
            entry.wf(),
            entry@.moves == seq![(uci.code() as u128, Stats::single(winner, opponent_rating))],
            entry@.recent == seq![recent_rank(id@, uci.code())],
    {
        let mut entry = PersonalEntry::new();
        let stats = Stats::new_single(winner, opponent_rating);
        entry.add_move(uci, stats);
        let ghost mid = entry@;
        entry.add_recent(uci, id);
        proof {
            let key = uci.code() as u128;
            let rank = recent_rank(id@, uci.code());
            let one = PersonalView { moves: seq![(key, stats)], recent: seq![rank] };
            assert(keys_of(one.moves) =~= seq![key]);
            UciMove::lemma_code_roundtrip(uci);
            id.lemma_bound();
            assert(rank / 65536 == id@ && rank % 65536 == uci.code());
            assert(one.wf());
            assert forall|k: u128| has_key(entry@.moves, k) <==> has_key(one.moves, k) by {
                assert(has_key(mid.moves, k) <==> (has_key(PersonalView::empty().moves, k) || k
                    == key));
                assert(keys_of(PersonalView::empty().moves) =~= Seq::<u128>::empty());
                if k == key {
                    assert(keys_of(one.moves)[0] == k);
                }
            }
            assert forall|k: u128| entry@.stats(k) == one.stats(k) by {
                assert(mid.stats(k) == if k == key {
                    PersonalView::empty().stats(k).plus(stats)
                } else {
                    PersonalView::empty().stats(k)
                });
                assert(entry@.stats(k) == mid.stats(k));
                assert(keys_of(PersonalView::empty().moves) =~= Seq::<u128>::empty());
                if k == key {
                    lemma_value_at(one.moves, 0);
                } else if has_key(one.moves, k) {
                    assert(keys_of(one.moves)[0] == key);
                }
            }
            assert forall|x: u128| entry@.recent.contains(x) <==> one.recent.contains(x) by {
                assert(entry@.recent.contains(x) <==> (PersonalView::empty().recent.contains(x)
                    || x == rank));
                if x == rank {
                    assert(one.recent[0] == x);
                }
            }
            lemma_personal_unique(entry@, one);
        }
        entry
    }

    /// Folds `other` into this entry: the counters of each move are summed,
    /// and the game pointers of both are held. Nothing is dropped.
    pub fn extend(&mut self, other: &PersonalEntry)
        requires
            old(self).wf(),
            other.wf(),
        ensures
            final(self).wf(),
            final(self)@.is_merge_of(old(self)@, other@),
    {
        let mut i: usize = 0;
        let n = other.move_count();
        while i < n
            invariant
                i <= n,
                n == other@.moves.len(),
                self.wf(),
                other.wf(),
                self@.recent == old(self)@.recent,
                forall|k: u128| #[trigger]
                    has_key(self@.moves, k) <==> (has_key(old(self)@.moves, k) || has_key(
                        other@.moves.take(i as int),
                        k,
                    )),
                forall|k: u128| #[trigger]
                    self@.stats(k) == old(self)@.stats(k).plus(
                        value_or(other@.moves.take(i as int), k, Stats::zero()),
                    ),
            decreases n - i,
        {
            let (uci, stats) = other.move_at(i);
            let ghost before = self@;
            self.add_move(uci, stats);
            proof {
                let key = uci.code() as u128;
                lemma_assoc_take(other@.moves, i as int, Stats::zero());
                let t0 = other@.moves.take(i as int);
                let t1 = other@.moves.take(i + 1);
                assert forall|k: u128| #[trigger]
                    has_key(self@.moves, k) <==> (has_key(old(self)@.moves, k) || has_key(
                        t1,
                        k,
                    )) by {
                    assert(has_key(self@.moves, k) <==> (has_key(before.moves, k) || k == key));
                    assert(has_key(before.moves, k) <==> (has_key(old(self)@.moves, k)
                        || has_key(t0, k)));
                    assert(has_key(t1, k) <==> (has_key(t0, k) || k == key));
                }
                assert forall|k: u128| #[trigger]
                    self@.stats(k) == old(self)@.stats(k).plus(
                        value_or(t1, k, Stats::zero()),
                    ) by {
                    assert(self@.stats(k) == if k == key {
                        before.stats(k).plus(stats)
                    } else {
                        before.stats(k)
                    });
                    assert(before.stats(k) == old(self)@.stats(k).plus(
                        value_or(t0, k, Stats::zero()),
                    ));
                    assert(value_or(t1, k, Stats::zero()) == if k == key {
                        stats
                    } else {
                        value_or(t0, k, Stats::zero())
                    });
                    if k == key {
                        assert(!has_key(t0, k));
                        Stats::lemma_plus_laws(old(self)@.stats(k), Stats::zero(), stats);
                        Stats::lemma_plus_laws(stats, Stats::zero(), Stats::zero());
                    }
                }
            }
            i = i + 1;
        }
        proof {
            assert(other@.moves.take(n as int) =~= other@.moves);
        }
        let ghost mid = self@;
        proof {
            self.lemma_shape();
            other.lemma_shape();
        }
        self.recent.union_with(&other.recent);
        proof {
            assert(self@.moves == mid.moves);
            assert forall|k: u128| #[trigger]
                has_key(self@.moves, k) <==> (has_key(old(self)@.moves, k) || has_key(
                    other@.moves,
                    k,
                )) by {
                assert(has_key(mid.moves, k) <==> (has_key(old(self)@.moves, k) || has_key(
                    other@.moves.take(n as int),
                    k,
                )));
            }
            assert forall|k: u128| #[trigger]
                self@.stats(k) == old(self)@.stats(k).plus(other@.stats(k)) by {
                assert(mid.stats(k) == old(self)@.stats(k).plus(
                    value_or(other@.moves.take(n as int), k, Stats::zero()),
                ));
                assert(self@.stats(k) == mid.stats(k));
            }
            assert forall|x: u128| #[trigger]
                self@.recent.contains(x) <==> (old(self)@.recent.contains(x)
                    || other@.recent.contains(x)) by {
                assert(self.recent@.contains(x) <==> (mid.recent.contains(x)
                    || other.recent@.contains(x)));
            }
            let after = self.recent@;
            assert forall|j: int| 0 <= j < after.len() implies valid_rank(#[trigger] after[j]) by {
                assert(after.contains(after[j]));
                if old(self)@.recent.contains(after[j]) {
                    let m = choose|m: int|
                        0 <= m < old(self)@.recent.len() && old(self)@.recent[m] == after[j];
                    assert(valid_rank(old(self)@.recent[m]));
                } else {
                    let m = choose|m: int|
                        0 <= m < other@.recent.len() && other@.recent[m] == after[j];
                    assert(valid_rank(other@.recent[m]));
                }
            }
        }
    }

    /// Drops all but the latest game pointers that a stored entry holds.
    pub fn truncate(&mut self)
        requires
            old(self).wf(),
        ensures
            final(self).wf(),
            final(self)@ == old(self)@.truncated(),
            final(self)@.recent.len() <= MAX_RECENT_GAMES,
    {
        proof {
            self.lemma_shape();
            lemma_largest(self.recent@, MAX_RECENT_GAMES as nat);
        }
        self.recent.keep_last(MAX_RECENT_GAMES);
        proof {
            let after = self.recent@;
            assert forall|j: int| 0 <= j < after.len() implies valid_rank(#[trigger] after[j]) by {
                assert(after.contains(after[j]));
                let m = choose|m: int|
                    0 <= m < old(self)@.recent.len() && old(self)@.recent[m] == after[j];
                assert(valid_rank(old(self)@.recent[m]));
            }
        }
    }
}

/// The bytes of a move and its counters.
pub open spec fn move_encoding(item: (u128, Stats)) -> Seq<u8> {
    code_encoding(item.0 as u16) + stats_encoding(item.1)
}

/// The move and the counters at the front of `s`, and the bytes behind.
pub open spec fn move_decoding(s: Seq<u8>) -> Decoded<(u128, Stats)> {
    match uci_decoding(s) {
        Err(e) => Err(e),
        Ok((uci, s1)) => match stats_decoding(s1) {
            Err(e) => Err(e),
            Ok((stats, s2)) => Ok(((uci.code() as u128, stats), s2)),
        },
    }
}

/// The bytes of a game pointer: the game, then the move.
pub open spec fn recent_encoding(rank: u128) -> Seq<u8> {
    be_bytes((rank / 65536) as nat, 6) + code_encoding((rank % 65536) as u16)
}

/// The game pointer at the front of `s`, and the bytes behind.
pub open spec fn recent_decoding(s: Seq<u8>) -> Decoded<u128> {
    match game_id_decoding(s) {
        Err(e) => Err(e),
        Ok((id, s1)) => match uci_decoding(s1) {
            Err(e) => Err(e),
            Ok((uci, s2)) => Ok((recent_rank(id, uci.code()), s2)),
        },
    }
}

/// The encoding of a move and its counters, as a function.
pub open spec fn move_encoder() -> spec_fn((u128, Stats)) -> Seq<u8> {
    |item: (u128, Stats)| move_encoding(item)
}

/// The decoding of a move and its counters, as a function.
pub open spec fn move_decoder() -> spec_fn(Seq<u8>) -> Decoded<(u128, Stats)> {
    |s: Seq<u8>| move_decoding(s)
}

/// The encoding of a game pointer, as a function.
pub open spec fn recent_encoder() -> spec_fn(u128) -> Seq<u8> {
    |rank: u128| recent_encoding(rank)
}

/// The decoding of a game pointer, as a function.
pub open spec fn recent_decoder() -> spec_fn(Seq<u8>) -> Decoded<u128> {
    |s: Seq<u8>| recent_decoding(s)
}

/// The bytes of an entry: the number of moves, the moves, the number of
/// game pointers, the game pointers.
pub open spec fn personal_encoding(v: PersonalView) -> Seq<u8> {
    uint_encoding(v.moves.len()) + list_encoding(v.moves, move_encoder()) + uint_encoding(
        v.recent.len(),
    ) + list_encoding(v.recent, recent_encoder())
}

/// The entry at the front of `s`, and the bytes behind. Moves and game
/// pointers must stand in increasing order, and the game pointers must be
/// no more than are stored.
pub open spec fn personal_decoding(s: Seq<u8>) -> Decoded<PersonalView> {
    match uint_decoding(s) {
        Err(e) => Err(e),
        Ok((n, s1)) => match list_decoding(s1, n, move_decoder()) {
            Err(e) => Err(e),
            Ok((moves, s2)) => match uint_decoding(s2) {
                Err(e) => Err(e),
                Ok((m, s3)) => match list_decoding(s3, m, recent_decoder()) {
                    Err(e) => Err(e),
                    Ok((recent, s4)) => if increasing(keys_of(moves)) && increasing(recent)
                        && recent.len() <= MAX_RECENT_GAMES {
                        Ok((PersonalView { moves, recent }, s4))
                    } else {
                        Err(DecodeError::InvalidData)
                    },
                },
            },
        },
    }
}

/// The entry that the whole of `s` encodes.
pub open spec fn personal_from_bytes(s: Seq<u8>) -> Result<PersonalView, DecodeError> {
    match personal_decoding(s) {
        Err(e) => Err(e),
        Ok((v, rest)) => if rest.len() == 0 {
            Ok(v)
        } else {
            Err(DecodeError::InvalidData)
        },
    }
}

/// A move and its counters are read back from their bytes.
pub proof fn lemma_move_roundtrip(item: (u128, Stats), rest: Seq<u8>)
    requires
        valid_move_key(item.0),
    ensures
        move_decoding(move_encoding(item) + rest) == Ok::<_, DecodeError>((item, rest)),
{
    let code = item.0 as u16;
    let after = stats_encoding(item.1) + rest;
    assert(move_encoding(item) + rest =~= code_encoding(code) + after);
    lemma_code_roundtrip(code, after);
    UciMove::lemma_of_code(code);
    lemma_stats_roundtrip(item.1, rest);
}

/// A game pointer is read back from its bytes.
pub proof fn lemma_recent_roundtrip(rank: u128, rest: Seq<u8>)
    requires
        valid_rank(rank),
    ensures
        recent_decoding(recent_encoding(rank) + rest) == Ok::<_, DecodeError>((rank, rest)),
{
    let id = (rank / 65536) as nat;
    let code = (rank % 65536) as u16;
    let after = code_encoding(code) + rest;
    let s = recent_encoding(rank) + rest;
    assert(s =~= be_bytes(id, 6) + after);
    lemma_be_bytes_len(id, 6);
    lemma_be_limits();
    lemma_be_roundtrip(id, 6);
    assert(s.take(6) =~= be_bytes(id, 6));
    assert(s.skip(6) =~= after);
    lemma_code_roundtrip(code, rest);
    UciMove::lemma_of_code(code);
}

/// A stored entry is read back from its bytes, whatever follows them.
pub proof fn lemma_personal_roundtrip(v: PersonalView, rest: Seq<u8>)
    requires
        v.wf(),
        v.recent.len() <= MAX_RECENT_GAMES,
        v.moves.len() <= u64::MAX,
    ensures
        personal_decoding(personal_encoding(v) + rest) == Ok::<_, DecodeError>((v, rest)),
{
    let e1 = uint_encoding(v.moves.len());
    let e2 = list_encoding(v.moves, move_encoder());
    let e3 = uint_encoding(v.recent.len());
    let e4 = list_encoding(v.recent, recent_encoder());
    let s = personal_encoding(v) + rest;
    assert(s =~= e1 + (e2 + (e3 + (e4 + rest))));
    lemma_uint_roundtrip(v.moves.len() as u64, e2 + (e3 + (e4 + rest)));
    assert forall|i: int, r: Seq<u8>| 0 <= i < v.moves.len() implies #[trigger] move_decoder()(
        move_encoder()(v.moves[i]) + r,
    ) == Ok::<_, DecodeError>((v.moves[i], r)) by {
        assert(valid_move_key(v.moves[i].0));
        lemma_move_roundtrip(v.moves[i], r);
    }
    lemma_list_roundtrip(v.moves, move_encoder(), move_decoder(), e3 + (e4 + rest));
    lemma_uint_roundtrip(v.recent.len() as u64, e4 + rest);
    assert forall|i: int, r: Seq<u8>| 0 <= i < v.recent.len() implies #[trigger] recent_decoder()(
        recent_encoder()(v.recent[i]) + r,
    ) == Ok::<_, DecodeError>((v.recent[i], r)) by {
        assert(valid_rank(v.recent[i]));
        lemma_recent_roundtrip(v.recent[i], r);
    }
    lemma_list_roundtrip(v.recent, recent_encoder(), recent_decoder(), rest);
}

/// Reads `n` moves with their counters.
fn read_moves(reader: &mut Reader, n: u64) -> (r: Result<(Vec<u128>, Vec<Stats>), DecodeError>)
    ensures
        match r {
            Ok((keys, stats)) => keys@.len() == stats@.len() && list_decoding(
                old(reader)@,
                n as nat,
                move_decoder(),
            ) == Ok::<_, DecodeError>((zip(keys@, stats@), final(reader)@)) && forall|i: int|
                0 <= i < keys@.len() ==> valid_move_key(#[trigger] keys@[i]),
            Err(e) => list_decoding(old(reader)@, n as nat, move_decoder()) == Err::<
                (Seq<(u128, Stats)>, Seq<u8>),
                _,
            >(e),
        },
{
    let mut keys: Vec<u128> = Vec::new();
    let mut stats: Vec<Stats> = Vec::new();
    let mut i: u64 = 0;
    proof {
        assert(zip(keys@, stats@) =~= Seq::empty());
    }
    while i < n
        invariant
            i <= n,
            keys@.len() == stats@.len(),
            list_decoding(old(reader)@, i as nat, move_decoder()) == Ok::<_, DecodeError>(
                (zip(keys@, stats@), reader@),
            ),
            forall|j: int| 0 <= j < keys@.len() ==> valid_move_key(#[trigger] keys@[j]),
        decreases n - i,
    {
        let ghost before = reader@;
        let ghost got = zip(keys@, stats@);
        proof {
            lemma_list_decoding_step(old(reader)@, i as nat, move_decoder());
            if move_decoding(before) is Err {
                lemma_list_decoding_stops(old(reader)@, i as nat, n as nat, move_decoder());
            }
        }
        let uci = match UciMove::read(reader) {
            Ok(uci) => uci,
            Err(e) => {
                return Err(e);
            },
        };
        let st = match Stats::read(reader) {
            Ok(st) => st,
            Err(e) => {
                return Err(e);
            },
        };
        let key = uci.to_code() as u128;
        keys.push(key);
        stats.push(st);
        proof {
            assert(zip(keys@, stats@) =~= got.push((key, st)));
        }
        i = i + 1;
    }
    Ok((keys, stats))
}

/// Reads `n` game pointers.
fn read_ranks(reader: &mut Reader, n: u64) -> (r: Result<Vec<u128>, DecodeError>)
    ensures
        match r {
            Ok(ranks) => list_decoding(old(reader)@, n as nat, recent_decoder()) == Ok::<
                _,
                DecodeError,
            >((ranks@, final(reader)@)) && forall|i: int|
                0 <= i < ranks@.len() ==> valid_rank(#[trigger] ranks@[i]),
            Err(e) => list_decoding(old(reader)@, n as nat, recent_decoder()) == Err::<
                (Seq<u128>, Seq<u8>),
                _,
            >(e),
        },
{
    let mut ranks: Vec<u128> = Vec::new();
    let mut i: u64 = 0;
    while i < n
        invariant
            i <= n,
            list_decoding(old(reader)@, i as nat, recent_decoder()) == Ok::<_, DecodeError>(
                (ranks@, reader@),
            ),
            forall|j: int| 0 <= j < ranks@.len() ==> valid_rank(#[trigger] ranks@[j]),
        decreases n - i,
    {
        let ghost before = reader@;
        proof {
            lemma_list_decoding_step(old(reader)@, i as nat, recent_decoder());
            if recent_decoding(before) is Err {
                lemma_list_decoding_stops(old(reader)@, i as nat, n as nat, recent_decoder());
            }
        }
        let id = match GameId::read(reader) {
            Ok(id) => id,
            Err(e) => {
                return Err(e);
            },
        };
        let uci = match UciMove::read(reader) {
            Ok(uci) => uci,
            Err(e) => {
                return Err(e);
            },
        };
        proof {
            id.lemma_bound();
        }
        let rank: u128 = id.to_u64() as u128 * 65536 + uci.to_code() as u128;
        proof {
            assert(rank == recent_rank(id@, uci.code()));
            assert(rank / 65536 == id@ && rank % 65536 == uci.code());
            UciMove::lemma_code_roundtrip(uci);
        }
        ranks.push(rank);
        i = i + 1;
    }
    Ok(ranks)
}

impl PersonalEntry {
    /// Appends the bytes of the entry as it is stored: with the latest game
    /// pointers only.
    pub fn write(&self, out: &mut Vec<u8>)
        requires
            self.wf(),
        ensures
            final(out)@ == old(out)@ + personal_encoding(self@.truncated()),
    {
        proof {
            self.lemma_shape();
        }
        let n = self.moves.len();
        write_uint(out, n as u64);
        let ghost base = out@;
        let mut i: usize = 0;
        proof {
            assert(self@.moves.take(0) =~= Seq::empty());
            assert(out@ =~= base + list_encoding(self@.moves.take(0), move_encoder()));
        }
        while i < n
            invariant
                i <= n,
                n == self@.moves.len(),
                self.wf(),
                out@ == base + list_encoding(self@.moves.take(i as int), move_encoder()),
            decreases n - i,
        {
            let (uci, st) = self.move_at(i);
            let ghost before = out@;
            write_code(out, uci.to_code());
            st.write(out);
            proof {
                let t0 = self@.moves.take(i as int);
                let t1 = self@.moves.take(i + 1);
                assert(t1.drop_last() =~= t0);
                assert(t1.last() == self@.moves[i as int]);
                assert(out@ =~= before + move_encoding(self@.moves[i as int]));
                assert(out@ =~= base + list_encoding(t1, move_encoder()));
            }
            i = i + 1;
        }
        proof {
            assert(self@.moves.take(n as int) =~= self@.moves);
        }
        let len = self.recent.len();
        let count = if len > MAX_RECENT_GAMES {
            MAX_RECENT_GAMES
        } else {
            len
        };
        let start = len - count;
        let ghost kept = largest(self@.recent, MAX_RECENT_GAMES as nat);
        proof {
            assert(kept =~= self@.recent.skip(start as int));
            assert(kept.len() == count);
        }
        write_uint(out, count as u64);
        let ghost base2 = out@;
        let mut j: usize = start;
        proof {
            assert(kept.take(0) =~= Seq::empty());
            assert(out@ =~= base2 + list_encoding(kept.take(0), recent_encoder()));
        }
        while j < len
            invariant
                start <= j <= len,
                len == self@.recent.len(),
                self.wf(),
                kept == self@.recent.skip(start as int),
                out@ == base2 + list_encoding(kept.take(j - start), recent_encoder()),
            decreases len - j,
        {
            let (uci, id) = self.recent_at(j);
            let ghost before = out@;
            proof {
                id.lemma_bound();
                let rank = self@.recent[j as int];
                assert(rank / 65536 == id@ && rank % 65536 == uci.code());
            }
            id.write(out);
            write_code(out, uci.to_code());
            proof {
                let t0 = kept.take(j - start);
                let t1 = kept.take(j - start + 1);
                assert(t1.drop_last() =~= t0);
                assert(t1.last() == self@.recent[j as int]);
                assert(out@ =~= before + recent_encoding(self@.recent[j as int]));
                assert(out@ =~= base2 + list_encoding(t1, recent_encoder()));
            }
            j = j + 1;
        }
        proof {
            assert(kept.take(len - start) =~= kept);
            assert(out@ =~= old(out)@ + personal_encoding(self@.truncated()));
        }
    }

    /// The bytes of the entry as it is stored.
    pub fn to_bytes(&self) -> (bytes: Vec<u8>)
        requires
            self.wf(),
        ensures
            bytes@ == personal_encoding(self@.truncated()),
    {
        let mut bytes: Vec<u8> = Vec::new();
        self.write(&mut bytes);
        proof {
            assert(Seq::<u8>::empty() + personal_encoding(self@.truncated()) =~= personal_encoding(
                self@.truncated(),
            ));
        }
        bytes
    }

    /// Reads an entry from the front of the reader.
    pub fn read(reader: &mut Reader) -> (r: Result<PersonalEntry, DecodeError>)
        ensures
            match r {
                Ok(entry) => entry.wf() && entry@.recent.len() <= MAX_RECENT_GAMES
                    && personal_decoding(old(reader)@) == Ok::<_, DecodeError>(
                    (entry@, final(reader)@),
                ),
                Err(e) => personal_decoding(old(reader)@) == Err::<(PersonalView, Seq<u8>), _>(e),
            },
    {
        let n = match read_uint(reader) {
            Ok(n) => n,
            Err(e) => {
                return Err(e);
            },
        };
        let (keys, stats) = match read_moves(reader, n) {
            Ok(pair) => pair,
            Err(e) => {
                return Err(e);
            },
        };
        let m = match read_uint(reader) {
            Ok(m) => m,
            Err(e) => {
                return Err(e);
            },
        };
        let ranks = match read_ranks(reader, m) {
            Ok(ranks) => ranks,
            Err(e) => {
                return Err(e);
            },
        };
        proof {
            lemma_zip_keys(keys@, stats@);
        }
        let ghost keys_view = keys@;
        let count = ranks.len();
        let moves = match KeySet::from_vec(keys) {
            Some(moves) => moves,
            None => {
                return Err(DecodeError::InvalidData);
            },
        };
        let recent = match KeySet::from_vec(ranks) {
            Some(recent) => recent,
            None => {
                return Err(DecodeError::InvalidData);
            },
        };
        if count > MAX_RECENT_GAMES {
            return Err(DecodeError::InvalidData);
        }
        let entry = PersonalEntry { moves, stats, recent };
        proof {
            entry.lemma_shape();
            assert forall|i: int| 0 <= i < entry@.moves.len() implies valid_move_key(
                #[trigger] entry@.moves[i].0,
            ) by {
                assert(entry@.moves[i].0 == keys_view[i]);
            }
        }
        Ok(entry)
    }

    /// Reads an entry from bytes that hold nothing else.
    pub fn from_bytes(bytes: &[u8]) -> (r: Result<PersonalEntry, DecodeError>)
        ensures
            match r {
                Ok(entry) => entry.wf() && entry@.recent.len() <= MAX_RECENT_GAMES
                    && personal_from_bytes(bytes@) == Ok::<_, DecodeError>(entry@),
                Err(e) => personal_from_bytes(bytes@) == Err::<PersonalView, _>(e),
            },
    {
        let mut reader = Reader::new(bytes);
        let entry = match PersonalEntry::read(&mut reader) {
            Ok(entry) => entry,
            Err(e) => {
                return Err(e);
            },
        };
        if reader.is_empty() {
            Ok(entry)
        } else {
            Err(DecodeError::InvalidData)
        }
    }

    /// Reads an entry from the front of the reader and folds it into this
    /// one. On failure this entry is unchanged.
    pub fn extend_from_reader(&mut self, reader: &mut Reader) -> (r: Result<(), DecodeError>)
        requires
            old(self).wf(),
        ensures
            final(self).wf(),
            match r {
                Ok(()) => personal_decoding(old(reader)@) is Ok && final(reader)@
                    == personal_decoding(old(reader)@)->Ok_0.1 && final(self)@.is_merge_of(
                    old(self)@,
                    personal_decoding(old(reader)@)->Ok_0.0,
                ),
                Err(e) => personal_decoding(old(reader)@) == Err::<(PersonalView, Seq<u8>), _>(e)
                    && final(self)@ == old(self)@,
            },
    {
        let other = match PersonalEntry::read(reader) {
            Ok(other) => other,
            Err(e) => {
                return Err(e);
            },
        };
        self.extend(&other);
        Ok(())
    }
}

} // verus!
