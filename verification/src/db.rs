//! The computing half of the store: the merge operators that the engine
//! calls to fold the values written under one key, the fold of the values
//! that a scan returns, and the write operations of the two keyspaces.

use vstd::prelude::*;
use vstd::slice::slice_to_vec;
use crate::model::assoc::has_key;
use crate::model::endian::be_bytes;
use crate::model::game_id::GameId;
use crate::model::game_info::{info_from_bytes, GameInfo, GameInfoView};
use crate::model::key::{master_key_bytes, personal_key_bytes, MasterKey, PersonalKey};
use crate::model::master::{
    lemma_master_unique, master_encoding, master_from_bytes, MasterEntry, MasterView,
    MAX_MASTER_GAMES,
};
use crate::model::personal::{
    lemma_personal_unique, personal_encoding, personal_from_bytes, PersonalEntry, PersonalView,
};
use crate::model::reader::DecodeError;
use crate::model::stats::Stats;
use crate::model::top::{
    elements, is_top, is_top_of, lemma_top_of_elements, lemma_top_staged, lemma_top_unique,
};

verus! {

/// The values of a list of slices.
pub open spec fn slices_view(slices: Seq<&[u8]>) -> Seq<Seq<u8>> {
    Seq::new(slices.len(), |i: int| slices[i]@)
}

/// The values of a list of vectors.
pub open spec fn vecs_view(vecs: Seq<Vec<u8>>) -> Seq<Seq<u8>> {
    Seq::new(vecs.len(), |i: int| vecs[i]@)
}

/// The values that a merge folds: what is stored, if anything, then the
/// operands in their order.
pub open spec fn operand_seq(existing: Option<&[u8]>, operands: Seq<Vec<u8>>) -> Seq<Seq<u8>> {
    match existing {
        Some(value) => seq![value@] + vecs_view(operands),
        None => vecs_view(operands),
    }
}

/// Gathers what is stored and the operands in one list.
pub fn gather<'a>(existing: Option<&'a [u8]>, operands: &'a Vec<Vec<u8>>) -> (ops: Vec<&'a [u8]>)
    ensures
        slices_view(ops@) == operand_seq(existing, operands@),
{
    let mut ops: Vec<&'a [u8]> = Vec::new();
    match existing {
        Some(value) => {
            ops.push(value);
        },
        None => {},
    }
    let ghost head = slices_view(ops@);
    let mut i: usize = 0;
    proof {
        assert(vecs_view(operands@.take(0)) =~= Seq::empty());
        assert(slices_view(ops@) =~= head + vecs_view(operands@.take(0)));
    }
    while i < operands.len()
        invariant
            i <= operands@.len(),
            slices_view(ops@) == head + vecs_view(operands@.take(i as int)),
        decreases operands@.len() - i,
    {
        let ghost before = slices_view(ops@);
        ops.push(operands[i].as_slice());
        proof {
            assert(slices_view(ops@) =~= before.push(operands@[i as int]@));
            assert(vecs_view(operands@.take(i + 1)) =~= vecs_view(operands@.take(i as int)).push(
                operands@[i as int]@,
            ));
            assert(slices_view(ops@) =~= head + vecs_view(operands@.take(i + 1)));
        }
        i = i + 1;
    }
    proof {
        assert(operands@.take(operands@.len() as int) =~= operands@);
        match existing {
            Some(value) => {
                assert(head =~= seq![value@]);
            },
            None => {
                assert(head =~= Seq::empty());
                assert(head + vecs_view(operands@) =~= vecs_view(operands@));
            },
        }
    }
    ops
}

// ----------------------------------------------------------------------
// Games
// ----------------------------------------------------------------------

/// Whether the value at index `i` is the first that is no record of a game.
pub open spec fn first_bad_info(ops: Seq<Seq<u8>>, i: int) -> bool {
    &&& 0 <= i < ops.len()
    &&& info_from_bytes(ops[i]) is Err
    &&& forall|j: int| 0 <= j < i ==> info_from_bytes(#[trigger] ops[j]) is Ok
}

/// Whether every value is a record of a game.
pub open spec fn all_infos(ops: Seq<Seq<u8>>) -> bool {
    forall|j: int| 0 <= j < ops.len() ==> info_from_bytes(#[trigger] ops[j]) is Ok
}

/// The records that the values encode.
pub open spec fn decoded_infos(ops: Seq<Seq<u8>>) -> Seq<GameInfoView> {
    Seq::new(ops.len(), |i: int| info_from_bytes(ops[i])->Ok_0)
}

/// What the merge of the records of a game gives: nothing for no value; the
/// first value that is no record, as it stands, so that reading it later
/// fails as reading it now did; else the bytes of the latest record, marked
/// for a player if one of the records is.
pub open spec fn game_merge_result(ops: Seq<Seq<u8>>) -> Option<Seq<u8>> {
    if ops.len() == 0 {
        None
    } else if all_infos(ops) {
        Some(GameInfoView::fold(decoded_infos(ops)).unwrap().encoding())
    } else {
        Some(ops[choose|i: int| first_bad_info(ops, i)])
    }
}

/// Folds the records of one game.
pub fn fold_game_infos(ops: &Vec<&[u8]>) -> (r: Option<Vec<u8>>)
    ensures
        match r {
            Some(value) => game_merge_result(slices_view(ops@)) == Some(value@),
            None => game_merge_result(slices_view(ops@)) is None,
        },
{
    let ghost all = slices_view(ops@);
    let mut acc: Option<GameInfo> = None;
    let mut i: usize = 0;
    proof {
        assert(decoded_infos(all).take(0) =~= Seq::empty());
    }
    while i < ops.len()
        invariant
            i <= ops@.len(),
            all == slices_view(ops@),
            forall|j: int| 0 <= j < i ==> info_from_bytes(#[trigger] all[j]) is Ok,
            match acc {
                Some(info) => GameInfoView::fold(decoded_infos(all).take(i as int)) == Some(info@),
                None => GameInfoView::fold(decoded_infos(all).take(i as int)) is None,
            },
        decreases ops@.len() - i,
    {
        let bytes: &[u8] = ops[i];
        proof {
            assert(all[i as int] == bytes@);
        }
        let mut info = match GameInfo::from_bytes(bytes) {
            Ok(info) => info,
            Err(_) => {
                proof {
                    assert(first_bad_info(all, i as int));
                    let c = choose|c: int| first_bad_info(all, c);
                    assert(c == i);
                }
                return Some(slice_to_vec(bytes));
            },
        };
        proof {
            let t0 = decoded_infos(all).take(i as int);
            let t1 = decoded_infos(all).take(i + 1);
            assert(t1.drop_last() =~= t0);
            assert(t1.last() == info@);
        }
        match acc {
            Some(older) => {
                info.merge_onto(&older);
            },
            None => {},
        }
        acc = Some(info);
        i = i + 1;
    }
    proof {
        assert(decoded_infos(all).take(ops@.len() as int) =~= decoded_infos(all));
        if ops@.len() > 0 {
            crate::model::game_info::lemma_fold_indexed(decoded_infos(all));
        }
    }
    match acc {
        Some(info) => Some(info.to_bytes()),
        None => None,
    }
}

/// The merge operator of the game keyspace: folds what is stored under a
/// game and the operands written since. It never fails: a value that is no
/// record comes back as it stands.
pub fn game_merge(_key: &[u8], existing: Option<&[u8]>, operands: &Vec<Vec<u8>>) -> (r: Option<
    Vec<u8>,
>)
    ensures
        match r {
            Some(value) => game_merge_result(operand_seq(existing, operands@)) == Some(value@),
            None => game_merge_result(operand_seq(existing, operands@)) is None,
        },
{
    let ops = gather(existing, operands);
    fold_game_infos(&ops)
}

// ----------------------------------------------------------------------
// Personal entries
// ----------------------------------------------------------------------

/// Whether the value at index `i` is the first that is no personal entry.
pub open spec fn first_bad_personal(ops: Seq<Seq<u8>>, i: int) -> bool {
    &&& 0 <= i < ops.len()
    &&& personal_from_bytes(ops[i]) is Err
    &&& forall|j: int| 0 <= j < i ==> personal_from_bytes(#[trigger] ops[j]) is Ok
}

/// Whether every value is a personal entry.
pub open spec fn all_personal(ops: Seq<Seq<u8>>) -> bool {
    forall|j: int| 0 <= j < ops.len() ==> personal_from_bytes(#[trigger] ops[j]) is Ok
}

/// The entries that the values encode.
pub open spec fn decoded_personal(ops: Seq<Seq<u8>>) -> Seq<PersonalView> {
    Seq::new(ops.len(), |i: int| personal_from_bytes(ops[i])->Ok_0)
}

/// The sum of the counters of a move over a list of entries.
pub open spec fn stats_total(entries: Seq<PersonalView>, key: u128) -> Stats
    decreases entries.len(),
{
    if entries.len() == 0 {
        Stats::zero()
    } else {
        stats_total(entries.drop_last(), key).plus(entries.last().stats(key))
    }
}

/// Whether `result` is the entries folded together: it holds the moves of
/// all, each with the sum of its counters, and the game pointers of all.
pub open spec fn personal_is_fold(result: PersonalView, entries: Seq<PersonalView>) -> bool {
    &&& forall|k: u128| #[trigger]
        has_key(result.moves, k) <==> exists|i: int|
            0 <= i < entries.len() && has_key(#[trigger] entries[i].moves, k)
    &&& forall|k: u128| #[trigger] result.stats(k) == stats_total(entries, k)
    &&& forall|x: u128| #[trigger]
        result.recent.contains(x) <==> exists|i: int|
            0 <= i < entries.len() && (#[trigger] entries[i]).recent.contains(x)
}

/// The fold of a list of entries.
pub open spec fn personal_fold(entries: Seq<PersonalView>) -> PersonalView {
    choose|v: PersonalView| v.wf() && personal_is_fold(v, entries)
}

/// An entry that is the fold of a list of entries is the fold of the list.
pub proof fn lemma_personal_fold_unique(x: PersonalView, entries: Seq<PersonalView>)
    requires
        x.wf(),
        personal_is_fold(x, entries),
    ensures
        x == personal_fold(entries),
{
    lemma_personal_fold_same(x, personal_fold(entries), entries);
}

/// The fold of a list of entries is determined.
pub proof fn lemma_personal_fold_same(x: PersonalView, y: PersonalView, entries: Seq<PersonalView>)
    requires
        x.wf(),
        y.wf(),
        personal_is_fold(x, entries),
        personal_is_fold(y, entries),
    ensures
        x == y,
{
    assert forall|k: u128| has_key(x.moves, k) <==> has_key(y.moves, k) by {
        assert(has_key(x.moves, k) <==> exists|i: int|
            0 <= i < entries.len() && has_key(#[trigger] entries[i].moves, k));
        assert(has_key(y.moves, k) <==> exists|i: int|
            0 <= i < entries.len() && has_key(#[trigger] entries[i].moves, k));
    }
    assert forall|k: u128| x.stats(k) == y.stats(k) by {
        assert(x.stats(k) == stats_total(entries, k));
        assert(y.stats(k) == stats_total(entries, k));
    }
    assert forall|v: u128| x.recent.contains(v) <==> y.recent.contains(v) by {
        assert(x.recent.contains(v) <==> exists|i: int|
            0 <= i < entries.len() && (#[trigger] entries[i]).recent.contains(v));
        assert(y.recent.contains(v) <==> exists|i: int|
            0 <= i < entries.len() && (#[trigger] entries[i]).recent.contains(v));
    }
    lemma_personal_unique(x, y);
}

/// The empty entry is the fold of no entry.
pub proof fn lemma_personal_fold_empty()
    ensures
        personal_is_fold(PersonalView::empty(), Seq::empty()),
        PersonalView::empty().wf(),
{
    let e = PersonalView::empty();
    assert(crate::model::assoc::keys_of(e.moves) =~= Seq::<u128>::empty());
}

/// Folding one more entry into the fold of a list gives the fold of the
/// longer list.
pub proof fn lemma_personal_fold_step(
    acc: PersonalView,
    entries: Seq<PersonalView>,
    next: PersonalView,
    result: PersonalView,
)
    requires
        personal_is_fold(acc, entries),
        result.is_merge_of(acc, next),
    ensures
        personal_is_fold(result, entries.push(next)),
{
    let longer = entries.push(next);
    assert(longer.drop_last() =~= entries);
    assert forall|k: u128| #[trigger]
        has_key(result.moves, k) <==> exists|i: int|
            0 <= i < longer.len() && has_key(#[trigger] longer[i].moves, k) by {
        assert(has_key(result.moves, k) <==> (has_key(acc.moves, k) || has_key(next.moves, k)));
        assert(has_key(acc.moves, k) <==> exists|i: int|
            0 <= i < entries.len() && has_key(#[trigger] entries[i].moves, k));
        if has_key(acc.moves, k) {
            let i = choose|i: int| 0 <= i < entries.len() && has_key(#[trigger] entries[i].moves, k);
            assert(has_key(longer[i].moves, k));
        }
        if has_key(next.moves, k) {
            assert(has_key(longer[longer.len() - 1].moves, k));
        }
        if exists|i: int| 0 <= i < longer.len() && has_key(#[trigger] longer[i].moves, k) {
            let i = choose|i: int| 0 <= i < longer.len() && has_key(#[trigger] longer[i].moves, k);
            if i < entries.len() {
                assert(has_key(entries[i].moves, k));
            }
        }
    }
    assert forall|k: u128| #[trigger] result.stats(k) == stats_total(longer, k) by {
        assert(result.stats(k) == acc.stats(k).plus(next.stats(k)));
        assert(acc.stats(k) == stats_total(entries, k));
    }
    assert forall|x: u128| #[trigger]
        result.recent.contains(x) <==> exists|i: int|
            0 <= i < longer.len() && (#[trigger] longer[i]).recent.contains(x) by {
        assert(result.recent.contains(x) <==> (acc.recent.contains(x) || next.recent.contains(x)));
        assert(acc.recent.contains(x) <==> exists|i: int|
            0 <= i < entries.len() && (#[trigger] entries[i]).recent.contains(x));
        if acc.recent.contains(x) {
            let i = choose|i: int|
                0 <= i < entries.len() && (#[trigger] entries[i]).recent.contains(x);
            assert(longer[i].recent.contains(x));
        }
        if next.recent.contains(x) {
            assert(longer[longer.len() - 1].recent.contains(x));
        }
        if exists|i: int| 0 <= i < longer.len() && (#[trigger] longer[i]).recent.contains(x) {
            let i = choose|i: int|
                0 <= i < longer.len() && (#[trigger] longer[i]).recent.contains(x);
            if i < entries.len() {
                assert(entries[i].recent.contains(x));
            }
        }
    }
}

/// The sum of the counters over two lists, one behind the other, is the
/// sum of the two sums.
pub proof fn lemma_stats_total_concat(first: Seq<PersonalView>, rest: Seq<PersonalView>, key: u128)
    ensures
        stats_total(first + rest, key) == stats_total(first, key).plus(stats_total(rest, key)),
    decreases rest.len(),
{
    if rest.len() == 0 {
        assert(first + rest =~= first);
        Stats::lemma_plus_laws(stats_total(first, key), Stats::zero(), Stats::zero());
    } else {
        let all = first + rest;
        assert(all.drop_last() =~= first + rest.drop_last());
        assert(all.last() == rest.last());
        lemma_stats_total_concat(first, rest.drop_last(), key);
        Stats::lemma_plus_laws(
            stats_total(first, key),
            stats_total(rest.drop_last(), key),
            rest.last().stats(key),
        );
    }
}

/// Folding does not depend on where the engine stores a fold in between:
/// where the fold of the first entries is stored, with the latest game
/// pointers only, and the others are folded onto what is stored, as much is
/// stored in the end as of the fold of all the entries.
pub proof fn lemma_personal_fold_regrouping(
    first: Seq<PersonalView>,
    rest: Seq<PersonalView>,
    head: PersonalView,
    staged: PersonalView,
    whole: PersonalView,
)
    requires
        head.wf(),
        staged.wf(),
        whole.wf(),
        personal_is_fold(head, first),
        personal_is_fold(staged, seq![head.truncated()] + rest),
        personal_is_fold(whole, first + rest),
    ensures
        forall|k: u128| staged.stats(k) == whole.stats(k),
        staged.truncated() == whole.truncated(),
{
    let stored = head.truncated();
    let mid = seq![stored] + rest;
    let all = first + rest;
    let cap = crate::model::personal::MAX_RECENT_GAMES as nat;
    assert forall|k: u128| has_key(staged.moves, k) <==> has_key(whole.moves, k) by {
        assert(has_key(staged.moves, k) <==> exists|i: int|
            0 <= i < mid.len() && has_key(#[trigger] mid[i].moves, k));
        assert(has_key(whole.moves, k) <==> exists|i: int|
            0 <= i < all.len() && has_key(#[trigger] all[i].moves, k));
        assert(has_key(head.moves, k) <==> exists|i: int|
            0 <= i < first.len() && has_key(#[trigger] first[i].moves, k));
        if has_key(staged.moves, k) {
            let i = choose|i: int| 0 <= i < mid.len() && has_key(#[trigger] mid[i].moves, k);
            if i == 0 {
                assert(has_key(head.moves, k));
                let j = choose|j: int| 0 <= j < first.len() && has_key(#[trigger] first[j].moves, k);
                assert(has_key(all[j].moves, k));
            } else {
                assert(mid[i] == rest[i - 1]);
                assert(has_key(all[first.len() + i - 1].moves, k));
            }
        }
        if has_key(whole.moves, k) {
            let i = choose|i: int| 0 <= i < all.len() && has_key(#[trigger] all[i].moves, k);
            if i < first.len() {
                assert(has_key(first[i].moves, k));
                assert(has_key(mid[0].moves, k));
            } else {
                assert(all[i] == rest[i - first.len()]);
                assert(has_key(mid[i - first.len() + 1].moves, k));
            }
        }
    }
    assert forall|k: u128| staged.stats(k) == whole.stats(k) by {
        assert(staged.stats(k) == stats_total(mid, k));
        assert(whole.stats(k) == stats_total(all, k));
        assert(head.stats(k) == stats_total(first, k));
        lemma_stats_total_concat(seq![stored], rest, k);
        lemma_stats_total_concat(first, rest, k);
        assert(stats_total(seq![stored], k) == Stats::zero().plus(stored.stats(k))) by {
            let one = seq![stored];
            assert(one.drop_last() =~= Seq::<PersonalView>::empty());
            assert(one.last() == stored);
            assert(stats_total(one.drop_last(), k) == Stats::zero());
        }
        Stats::lemma_plus_laws(stored.stats(k), Stats::zero(), Stats::zero());
    }
    assert forall|k: u128| has_key(staged.moves, k) implies crate::model::assoc::value_of(
        staged.moves,
        k,
    ) == crate::model::assoc::value_of(whole.moves, k) by {
        assert(staged.stats(k) == whole.stats(k));
    }
    crate::model::assoc::lemma_assoc_unique(staged.moves, whole.moves);
    let inner = stored.recent;
    let s1 = Set::new(|x: u128| head.recent.contains(x));
    let s2 = Set::new(
        |x: u128| exists|i: int| 0 <= i < rest.len() && (#[trigger] rest[i]).recent.contains(x),
    );
    crate::model::top::lemma_largest_is_top(head.recent, cap);
    crate::model::top::lemma_largest_is_top(staged.recent, cap);
    crate::model::top::lemma_largest_is_top(whole.recent, cap);
    let between = Set::new(|x: u128| inner.contains(x) || s2.contains(x));
    assert(Set::new(|x: u128| staged.recent.contains(x)) =~= between) by {
        assert forall|x: u128| staged.recent.contains(x) <==> between.contains(x) by {
            assert(staged.recent.contains(x) <==> exists|i: int|
                0 <= i < mid.len() && (#[trigger] mid[i]).recent.contains(x));
            if staged.recent.contains(x) {
                let i = choose|i: int| 0 <= i < mid.len() && (#[trigger] mid[i]).recent.contains(x);
                if i > 0 {
                    assert(mid[i] == rest[i - 1]);
                    assert(rest[i - 1].recent.contains(x));
                }
            }
            if inner.contains(x) {
                assert(mid[0].recent.contains(x));
            }
            if s2.contains(x) {
                let i = choose|i: int|
                    0 <= i < rest.len() && (#[trigger] rest[i]).recent.contains(x);
                assert(mid[i + 1].recent.contains(x));
            }
        }
    }
    lemma_top_staged(inner, crate::model::keyset::largest(staged.recent, cap), s1, s2, cap);
    assert(Set::new(|x: u128| whole.recent.contains(x)) =~= s1.union(s2)) by {
        assert forall|x: u128| whole.recent.contains(x) <==> s1.union(s2).contains(x) by {
            assert(whole.recent.contains(x) <==> exists|i: int|
                0 <= i < all.len() && (#[trigger] all[i]).recent.contains(x));
            assert(head.recent.contains(x) <==> exists|i: int|
                0 <= i < first.len() && (#[trigger] first[i]).recent.contains(x));
            if whole.recent.contains(x) {
                let i = choose|i: int| 0 <= i < all.len() && (#[trigger] all[i]).recent.contains(x);
                if i < first.len() {
                    assert(first[i].recent.contains(x));
                } else {
                    assert(all[i] == rest[i - first.len()]);
                    assert(rest[i - first.len()].recent.contains(x));
                }
            }
            if head.recent.contains(x) {
                let i = choose|i: int|
                    0 <= i < first.len() && (#[trigger] first[i]).recent.contains(x);
                assert(all[i].recent.contains(x));
            }
            if s2.contains(x) {
                let i = choose|i: int|
                    0 <= i < rest.len() && (#[trigger] rest[i]).recent.contains(x);
                assert(all[first.len() + i].recent.contains(x));
            }
        }
    }
    lemma_top_unique(
        crate::model::keyset::largest(staged.recent, cap),
        crate::model::keyset::largest(whole.recent, cap),
        s1.union(s2),
        cap,
    );
}

/// Decodes the values and folds them into one entry, nothing dropped. Fails
/// at the first value that is no entry, with its index and the reason.
pub fn collect_personal(ops: &Vec<&[u8]>) -> (r: Result<PersonalEntry, (usize, DecodeError)>)
    ensures
        match r {
            Ok(entry) => all_personal(slices_view(ops@)) && entry.wf() && entry@
                == personal_fold(decoded_personal(slices_view(ops@))) && personal_is_fold(
                entry@,
                decoded_personal(slices_view(ops@)),
            ),
            Err((i, e)) => first_bad_personal(slices_view(ops@), i as int) && personal_from_bytes(
                slices_view(ops@)[i as int],
            ) == Err::<PersonalView, _>(e),
        },
{
    let ghost all = slices_view(ops@);
    let mut acc = PersonalEntry::new();
    let mut i: usize = 0;
    proof {
        lemma_personal_fold_empty();
        assert(decoded_personal(all).take(0) =~= Seq::empty());
    }
    while i < ops.len()
        invariant
            i <= ops@.len(),
            all == slices_view(ops@),
            acc.wf(),
            forall|j: int| 0 <= j < i ==> personal_from_bytes(#[trigger] all[j]) is Ok,
            personal_is_fold(acc@, decoded_personal(all).take(i as int)),
        decreases ops@.len() - i,
    {
        let bytes: &[u8] = ops[i];
        proof {
            assert(all[i as int] == bytes@);
        }
        let entry = match PersonalEntry::from_bytes(bytes) {
            Ok(entry) => entry,
            Err(e) => {
                return Err((i, e));
            },
        };
        let ghost before = acc@;
        acc.extend(&entry);
        proof {
            let t0 = decoded_personal(all).take(i as int);
            let t1 = decoded_personal(all).take(i + 1);
            assert(t1 =~= t0.push(entry@));
            lemma_personal_fold_step(before, t0, entry@, acc@);
        }
        i = i + 1;
    }
    proof {
        assert(decoded_personal(all).take(ops@.len() as int) =~= decoded_personal(all));
        acc.lemma_wf();
        lemma_personal_fold_unique(acc@, decoded_personal(all));
    }
    Ok(acc)
}

/// What the merge of personal entries gives: the first value that is no
/// entry, as it stands; else the bytes of the fold of the entries as it is
/// stored. For no value that is the empty entry.
pub open spec fn personal_merge_result(ops: Seq<Seq<u8>>) -> Seq<u8> {
    if all_personal(ops) {
        personal_encoding(personal_fold(decoded_personal(ops)).truncated())
    } else {
        ops[choose|i: int| first_bad_personal(ops, i)]
    }
}

/// The merge operator of the personal keyspace: folds what is stored under
/// a key and the operands written since. It never fails: a value that is no
/// entry comes back as it stands.
pub fn personal_merge(_key: &[u8], existing: Option<&[u8]>, operands: &Vec<Vec<u8>>) -> (r: Option<
    Vec<u8>,
>)
    ensures
        r is Some,
        r.unwrap()@ == personal_merge_result(operand_seq(existing, operands@)),
{
    let ops = gather(existing, operands);
    match collect_personal(&ops) {
        Ok(entry) => Some(entry.to_bytes()),
        Err((i, _)) => {
            proof {
                let all = slices_view(ops@);
                let c = choose|c: int| first_bad_personal(all, c);
                assert(c == i);
            }
            Some(slice_to_vec(ops[i]))
        },
    }
}

/// Folds the values that a scan of the personal keyspace returned, in the
/// order of their keys, into one entry. Nothing is dropped.
pub fn fold_personal(values: &Vec<Vec<u8>>) -> (r: Result<PersonalEntry, DecodeError>)
    ensures
        match r {
            Ok(entry) => all_personal(vecs_view(values@)) && entry.wf() && entry@ == personal_fold(
                decoded_personal(vecs_view(values@)),
            ) && personal_is_fold(entry@, decoded_personal(vecs_view(values@))),
            Err(e) => exists|i: int|
                first_bad_personal(vecs_view(values@), i) && personal_from_bytes(
                    vecs_view(values@)[i],
                ) == Err::<PersonalView, _>(e),
        },
{
    let ops = gather(None, values);
    match collect_personal(&ops) {
        Ok(entry) => Ok(entry),
        Err((i, e)) => {
            proof {
                assert(first_bad_personal(vecs_view(values@), i as int));
            }
            Err(e)
        },
    }
}

// ----------------------------------------------------------------------
// Master entries
// ----------------------------------------------------------------------

/// Whether the value at index `i` is the first that is no master entry.
pub open spec fn first_bad_master(ops: Seq<Seq<u8>>, i: int) -> bool {
    &&& 0 <= i < ops.len()
    &&& master_from_bytes(ops[i]) is Err
    &&& forall|j: int| 0 <= j < i ==> master_from_bytes(#[trigger] ops[j]) is Ok
}

/// Whether every value is a master entry.
pub open spec fn all_master(ops: Seq<Seq<u8>>) -> bool {
    forall|j: int| 0 <= j < ops.len() ==> master_from_bytes(#[trigger] ops[j]) is Ok
}

/// The entries that the values encode.
pub open spec fn decoded_master(ops: Seq<Seq<u8>>) -> Seq<MasterView> {
    Seq::new(ops.len(), |i: int| master_from_bytes(ops[i])->Ok_0)
}

/// The sum of the counters of a move over a list of entries.
pub open spec fn group_total(entries: Seq<MasterView>, key: u128) -> Stats
    decreases entries.len(),
{
    if entries.len() == 0 {
        Stats::zero()
    } else {
        group_total(entries.drop_last(), key).plus(entries.last().group(key).stats)
    }
}

/// The games of a move in any of the entries.
pub open spec fn games_among(entries: Seq<MasterView>, key: u128) -> Set<u128> {
    Set::new(
        |x: u128|
            exists|i: int|
                0 <= i < entries.len() && (#[trigger] entries[i]).group(key).games.contains(x),
    )
}

/// Whether `result` is the entries folded together: it holds the moves of
/// all, each with the sum of its counters and the best of its games.
pub open spec fn master_is_fold(result: MasterView, entries: Seq<MasterView>) -> bool {
    &&& forall|k: u128| #[trigger]
        has_key(result.groups, k) <==> exists|i: int|
            0 <= i < entries.len() && has_key(#[trigger] entries[i].groups, k)
    &&& forall|k: u128| #[trigger] result.group(k).stats == group_total(entries, k)
    &&& forall|k: u128|
        is_top(#[trigger] result.group(k).games, games_among(entries, k), MAX_MASTER_GAMES as nat)
}

/// The fold of a list of entries.
pub open spec fn master_fold(entries: Seq<MasterView>) -> MasterView {
    choose|v: MasterView| v.wf() && master_is_fold(v, entries)
}

/// An entry that is the fold of a list of entries is the fold of the list.
pub proof fn lemma_master_fold_unique(x: MasterView, entries: Seq<MasterView>)
    requires
        x.wf(),
        master_is_fold(x, entries),
    ensures
        x == master_fold(entries),
{
    lemma_master_fold_same(x, master_fold(entries), entries);
}

/// The fold of a list of entries is determined.
pub proof fn lemma_master_fold_same(x: MasterView, y: MasterView, entries: Seq<MasterView>)
    requires
        x.wf(),
        y.wf(),
        master_is_fold(x, entries),
        master_is_fold(y, entries),
    ensures
        x == y,
{
    assert forall|k: u128| has_key(x.groups, k) <==> has_key(y.groups, k) by {
        assert(has_key(x.groups, k) <==> exists|i: int|
            0 <= i < entries.len() && has_key(#[trigger] entries[i].groups, k));
        assert(has_key(y.groups, k) <==> exists|i: int|
            0 <= i < entries.len() && has_key(#[trigger] entries[i].groups, k));
    }
    assert forall|k: u128| x.group(k) == y.group(k) by {
        assert(x.group(k).stats == group_total(entries, k));
        assert(y.group(k).stats == group_total(entries, k));
        assert(is_top(x.group(k).games, games_among(entries, k), MAX_MASTER_GAMES as nat));
        assert(is_top(y.group(k).games, games_among(entries, k), MAX_MASTER_GAMES as nat));
        lemma_top_unique(
            x.group(k).games,
            y.group(k).games,
            games_among(entries, k),
            MAX_MASTER_GAMES as nat,
        );
    }
    lemma_master_unique(x, y);
}

/// The empty entry is the fold of no entry.
pub proof fn lemma_master_fold_empty()
    ensures
        master_is_fold(MasterView::empty(), Seq::empty()),
        MasterView::empty().wf(),
{
    let e = MasterView::empty();
    assert(crate::model::assoc::keys_of(e.groups) =~= Seq::<u128>::empty());
    assert forall|k: u128|
        is_top(
            #[trigger] e.group(k).games,
            games_among(Seq::empty(), k),
            MAX_MASTER_GAMES as nat,
        ) by {
        assert(e.group(k).games =~= Seq::<u128>::empty());
    }
}

/// Folding one more entry into the fold of a list gives the fold of the
/// longer list, although each step drops all but the best games.
pub proof fn lemma_master_fold_step(
    acc: MasterView,
    entries: Seq<MasterView>,
    next: MasterView,
    result: MasterView,
)
    requires
        master_is_fold(acc, entries),
        result.is_merge_of(acc, next),
    ensures
        master_is_fold(result, entries.push(next)),
{
    let longer = entries.push(next);
    let cap = MAX_MASTER_GAMES as nat;
    assert(longer.drop_last() =~= entries);
    assert forall|k: u128| #[trigger]
        has_key(result.groups, k) <==> exists|i: int|
            0 <= i < longer.len() && has_key(#[trigger] longer[i].groups, k) by {
        assert(has_key(result.groups, k) <==> (has_key(acc.groups, k) || has_key(next.groups, k)));
        assert(has_key(acc.groups, k) <==> exists|i: int|
            0 <= i < entries.len() && has_key(#[trigger] entries[i].groups, k));
        if has_key(acc.groups, k) {
            let i = choose|i: int|
                0 <= i < entries.len() && has_key(#[trigger] entries[i].groups, k);
            assert(has_key(longer[i].groups, k));
        }
        if has_key(next.groups, k) {
            assert(has_key(longer[longer.len() - 1].groups, k));
        }
        if exists|i: int| 0 <= i < longer.len() && has_key(#[trigger] longer[i].groups, k) {
            let i = choose|i: int| 0 <= i < longer.len() && has_key(#[trigger] longer[i].groups, k);
            if i < entries.len() {
                assert(has_key(entries[i].groups, k));
            }
        }
    }
    assert forall|k: u128| #[trigger] result.group(k).stats == group_total(longer, k) by {
        assert(result.group(k).stats == acc.group(k).stats.plus(next.group(k).stats));
        assert(acc.group(k).stats == group_total(entries, k));
    }
    assert forall|k: u128|
        is_top(#[trigger] result.group(k).games, games_among(longer, k), cap) by {
        let inner = acc.group(k).games;
        let outer = result.group(k).games;
        let added = next.group(k).games;
        let s1 = games_among(entries, k);
        let s2 = Set::new(|x: u128| added.contains(x));
        assert(is_top(inner, s1, cap));
        assert(is_top_of(outer, inner, added, cap));
        lemma_top_of_elements(outer, inner, added, cap);
        assert(elements(inner, added) =~= Set::new(|x: u128| inner.contains(x) || s2.contains(x)));
        lemma_top_staged(inner, outer, s1, s2, cap);
        assert(s1.union(s2) =~= games_among(longer, k)) by {
            assert forall|x: u128| s1.union(s2).contains(x) <==> games_among(longer, k).contains(
                x,
            ) by {
                if s1.contains(x) {
                    let i = choose|i: int|
                        0 <= i < entries.len() && (#[trigger] entries[i]).group(k).games.contains(
                            x,
                        );
                    assert(longer[i].group(k).games.contains(x));
                }
                if s2.contains(x) {
                    assert(longer[longer.len() - 1].group(k).games.contains(x));
                }
                if games_among(longer, k).contains(x) {
                    let i = choose|i: int|
                        0 <= i < longer.len() && (#[trigger] longer[i]).group(k).games.contains(x);
                    if i < entries.len() {
                        assert(entries[i].group(k).games.contains(x));
                    }
                }
            }
        }
    }
}

/// The sum of the counters over two lists, one behind the other, is the
/// sum of the two sums.
pub proof fn lemma_group_total_concat(first: Seq<MasterView>, rest: Seq<MasterView>, key: u128)
    ensures
        group_total(first + rest, key) == group_total(first, key).plus(group_total(rest, key)),
    decreases rest.len(),
{
    if rest.len() == 0 {
        assert(first + rest =~= first);
        Stats::lemma_plus_laws(group_total(first, key), Stats::zero(), Stats::zero());
    } else {
        let all = first + rest;
        assert(all.drop_last() =~= first + rest.drop_last());
        assert(all.last() == rest.last());
        lemma_group_total_concat(first, rest.drop_last(), key);
        Stats::lemma_plus_laws(
            group_total(first, key),
            group_total(rest.drop_last(), key),
            rest.last().group(key).stats,
        );
    }
}

/// Folding does not depend on where the engine stores a fold in between:
/// the fold of the first entries, folded with the others, is the fold of
/// all the entries.
pub proof fn lemma_master_fold_regrouping(
    first: Seq<MasterView>,
    rest: Seq<MasterView>,
    head: MasterView,
    staged: MasterView,
    whole: MasterView,
)
    requires
        staged.wf(),
        whole.wf(),
        master_is_fold(head, first),
        master_is_fold(staged, seq![head] + rest),
        master_is_fold(whole, first + rest),
    ensures
        staged == whole,
{
    let mid = seq![head] + rest;
    let all = first + rest;
    let cap = MAX_MASTER_GAMES as nat;
    assert forall|k: u128| has_key(staged.groups, k) <==> has_key(whole.groups, k) by {
        assert(has_key(staged.groups, k) <==> exists|i: int|
            0 <= i < mid.len() && has_key(#[trigger] mid[i].groups, k));
        assert(has_key(whole.groups, k) <==> exists|i: int|
            0 <= i < all.len() && has_key(#[trigger] all[i].groups, k));
        assert(has_key(head.groups, k) <==> exists|i: int|
            0 <= i < first.len() && has_key(#[trigger] first[i].groups, k));
        if has_key(staged.groups, k) {
            let i = choose|i: int| 0 <= i < mid.len() && has_key(#[trigger] mid[i].groups, k);
            if i == 0 {
                let j = choose|j: int|
                    0 <= j < first.len() && has_key(#[trigger] first[j].groups, k);
                assert(has_key(all[j].groups, k));
            } else {
                assert(mid[i] == rest[i - 1]);
                assert(has_key(all[first.len() + i - 1].groups, k));
            }
        }
        if has_key(whole.groups, k) {
            let i = choose|i: int| 0 <= i < all.len() && has_key(#[trigger] all[i].groups, k);
            if i < first.len() {
                assert(has_key(first[i].groups, k));
                assert(has_key(mid[0].groups, k));
            } else {
                assert(all[i] == rest[i - first.len()]);
                assert(has_key(mid[i - first.len() + 1].groups, k));
            }
        }
    }
    assert forall|k: u128| staged.group(k) == whole.group(k) by {
        assert(staged.group(k).stats == group_total(mid, k));
        assert(whole.group(k).stats == group_total(all, k));
        assert(head.group(k).stats == group_total(first, k));
        lemma_group_total_concat(seq![head], rest, k);
        lemma_group_total_concat(first, rest, k);
        assert(group_total(seq![head], k) == Stats::zero().plus(head.group(k).stats)) by {
            let one = seq![head];
            assert(one.drop_last() =~= Seq::<MasterView>::empty());
            assert(one.last() == head);
            assert(group_total(one.drop_last(), k) == Stats::zero());
        }
        Stats::lemma_plus_laws(head.group(k).stats, Stats::zero(), Stats::zero());
        let inner = head.group(k).games;
        let s1 = games_among(first, k);
        let s2 = games_among(rest, k);
        assert(is_top(inner, s1, cap));
        assert(is_top(staged.group(k).games, games_among(mid, k), cap));
        assert(is_top(whole.group(k).games, games_among(all, k), cap));
        assert(games_among(mid, k) =~= Set::new(|x: u128| inner.contains(x) || s2.contains(x))) by {
            assert forall|x: u128|
                games_among(mid, k).contains(x) <==> (inner.contains(x) || s2.contains(x)) by {
                if games_among(mid, k).contains(x) {
                    let i = choose|i: int|
                        0 <= i < mid.len() && (#[trigger] mid[i]).group(k).games.contains(x);
                    if i > 0 {
                        assert(mid[i] == rest[i - 1]);
                        assert(rest[i - 1].group(k).games.contains(x));
                    }
                }
                if inner.contains(x) {
                    assert(mid[0].group(k).games.contains(x));
                }
                if s2.contains(x) {
                    let i = choose|i: int|
                        0 <= i < rest.len() && (#[trigger] rest[i]).group(k).games.contains(x);
                    assert(mid[i + 1].group(k).games.contains(x));
                }
            }
        }
        lemma_top_staged(inner, staged.group(k).games, s1, s2, cap);
        assert(games_among(all, k) =~= s1.union(s2)) by {
            assert forall|x: u128| games_among(all, k).contains(x) <==> s1.union(s2).contains(x) by {
                if games_among(all, k).contains(x) {
                    let i = choose|i: int|
                        0 <= i < all.len() && (#[trigger] all[i]).group(k).games.contains(x);
                    if i < first.len() {
                        assert(first[i].group(k).games.contains(x));
                    } else {
                        assert(all[i] == rest[i - first.len()]);
                        assert(rest[i - first.len()].group(k).games.contains(x));
                    }
                }
                if s1.contains(x) {
                    let i = choose|i: int|
                        0 <= i < first.len() && (#[trigger] first[i]).group(k).games.contains(x);
                    assert(all[i].group(k).games.contains(x));
                }
                if s2.contains(x) {
                    let i = choose|i: int|
                        0 <= i < rest.len() && (#[trigger] rest[i]).group(k).games.contains(x);
                    assert(all[first.len() + i].group(k).games.contains(x));
                }
            }
        }
        lemma_top_unique(staged.group(k).games, whole.group(k).games, s1.union(s2), cap);
    }
    lemma_master_unique(staged, whole);
}

/// Decodes the values and folds them into one entry. Fails at the first
/// value that is no entry, with its index and the reason.
pub fn collect_master(ops: &Vec<&[u8]>) -> (r: Result<MasterEntry, (usize, DecodeError)>)
    ensures
        match r {
            Ok(entry) => all_master(slices_view(ops@)) && entry.wf() && entry@ == master_fold(
                decoded_master(slices_view(ops@)),
            ) && master_is_fold(entry@, decoded_master(slices_view(ops@))),
            Err((i, e)) => first_bad_master(slices_view(ops@), i as int) && master_from_bytes(
                slices_view(ops@)[i as int],
            ) == Err::<MasterView, _>(e),
        },
{
    let ghost all = slices_view(ops@);
    let mut acc = MasterEntry::new();
    let mut i: usize = 0;
    proof {
        lemma_master_fold_empty();
        assert(decoded_master(all).take(0) =~= Seq::empty());
    }
    while i < ops.len()
        invariant
            i <= ops@.len(),
            all == slices_view(ops@),
            acc.wf(),
            forall|j: int| 0 <= j < i ==> master_from_bytes(#[trigger] all[j]) is Ok,
            master_is_fold(acc@, decoded_master(all).take(i as int)),
        decreases ops@.len() - i,
    {
        let bytes: &[u8] = ops[i];
        proof {
            assert(all[i as int] == bytes@);
        }
        let entry = match MasterEntry::from_bytes(bytes) {
            Ok(entry) => entry,
            Err(e) => {
                return Err((i, e));
            },
        };
        let ghost before = acc@;
        acc.extend(&entry);
        proof {
            let t0 = decoded_master(all).take(i as int);
            let t1 = decoded_master(all).take(i + 1);
            assert(t1 =~= t0.push(entry@));
            lemma_master_fold_step(before, t0, entry@, acc@);
        }
        i = i + 1;
    }
    proof {
        assert(decoded_master(all).take(ops@.len() as int) =~= decoded_master(all));
        acc.lemma_wf();
        lemma_master_fold_unique(acc@, decoded_master(all));
    }
    Ok(acc)
}

/// What the merge of master entries gives: the first value that is no
/// entry, as it stands; else the bytes of the fold of the entries. For no
/// value that is the empty entry.
pub open spec fn master_merge_result(ops: Seq<Seq<u8>>) -> Seq<u8> {
    if all_master(ops) {
        master_encoding(master_fold(decoded_master(ops)))
    } else {
        ops[choose|i: int| first_bad_master(ops, i)]
    }
}

/// The merge operator of the master keyspace: folds what is stored under a
/// key and the operands written since. It never fails: a value that is no
/// entry comes back as it stands.
pub fn master_merge(_key: &[u8], existing: Option<&[u8]>, operands: &Vec<Vec<u8>>) -> (r: Option<
    Vec<u8>,
>)
    ensures
        r is Some,
        r.unwrap()@ == master_merge_result(operand_seq(existing, operands@)),
{
    let ops = gather(existing, operands);
    match collect_master(&ops) {
        Ok(entry) => Some(entry.to_bytes()),
        Err((i, _)) => {
            proof {
                let all = slices_view(ops@);
                let c = choose|c: int| first_bad_master(all, c);
                assert(c == i);
            }
            Some(slice_to_vec(ops[i]))
        },
    }
}

/// Folds the values that a scan of the master keyspace returned, in the
/// order of their keys, into one entry.
pub fn fold_master(values: &Vec<Vec<u8>>) -> (r: Result<MasterEntry, DecodeError>)
    ensures
        match r {
            Ok(entry) => all_master(vecs_view(values@)) && entry.wf() && entry@ == master_fold(
                decoded_master(vecs_view(values@)),
            ) && master_is_fold(entry@, decoded_master(vecs_view(values@))),
            Err(e) => exists|i: int|
                first_bad_master(vecs_view(values@), i) && master_from_bytes(vecs_view(values@)[i])
                    == Err::<MasterView, _>(e),
        },
{
    let ops = gather(None, values);
    match collect_master(&ops) {
        Ok(entry) => Ok(entry),
        Err((i, e)) => {
            proof {
                assert(first_bad_master(vecs_view(values@), i as int));
            }
            Err(e)
        },
    }
}

// ----------------------------------------------------------------------
// Writes and point reads
// ----------------------------------------------------------------------

/// The keyspaces of the store.
#[derive(Clone, Copy, Debug, PartialEq, Eq, Structural)]
pub enum Keyspace {
    /// Personal entries under personal keys, folded by `personal_merge`.
    Personal,
    /// Records of games under game identifiers, folded by `game_merge`.
    Game,
    /// Master entries under master keys, folded by `master_merge`.
    Master,
    /// Master games under game identifiers, written once.
    MasterGame,
}

/// How a value is written.
#[derive(Clone, Copy, Debug, PartialEq, Eq, Structural)]
pub enum WriteKind {
    /// The value replaces what is stored.
    Put,
    /// The value is folded into what is stored.
    Merge,
}

/// A write as a value.
pub struct WriteOpView {
    pub keyspace: Keyspace,
    pub kind: WriteKind,
    pub key: Seq<u8>,
    pub value: Seq<u8>,
}

/// A write for the store to perform.
#[derive(Debug)]
pub struct WriteOp {
    pub keyspace: Keyspace,
    pub kind: WriteKind,
    pub key: Vec<u8>,
    pub value: Vec<u8>,
}

impl View for WriteOp {
    type V = WriteOpView;

    open spec fn view(&self) -> WriteOpView {
        WriteOpView {
            keyspace: self.keyspace,
            kind: self.kind,
            key: self.key@,
            value: self.value@,
        }
    }
}

/// The write that folds a record into what is stored of a game.
pub fn merge_game_info(id: GameId, info: &GameInfo) -> (op: WriteOp)
    requires
        id.wf(),
    ensures
        op@ == (WriteOpView {
            keyspace: Keyspace::Game,
            kind: WriteKind::Merge,
            key: be_bytes(id@, 6),
            value: info@.encoding(),
        }),
{
    let key = slice_to_vec(id.to_bytes().as_slice());
    WriteOp { keyspace: Keyspace::Game, kind: WriteKind::Merge, key, value: info.to_bytes() }
}

/// The write that folds an entry into what is stored under a personal key.
pub fn merge_personal(key: &PersonalKey, entry: &PersonalEntry) -> (op: WriteOp)
    requires
        key.wf(),
        entry.wf(),
    ensures
        op@ == (WriteOpView {
            keyspace: Keyspace::Personal,
            kind: WriteKind::Merge,
            key: personal_key_bytes(key.prefix_view(), key.year_view()),
            value: personal_encoding(entry@.truncated()),
        }),
{
    WriteOp {
        keyspace: Keyspace::Personal,
        kind: WriteKind::Merge,
        key: key.into_bytes(),
        value: entry.to_bytes(),
    }
}

/// The write that folds an entry into what is stored under a master key.
pub fn merge_master(key: &MasterKey, entry: &MasterEntry) -> (op: WriteOp)
    requires
        entry.wf(),
    ensures
        op@ == (WriteOpView {
            keyspace: Keyspace::Master,
            kind: WriteKind::Merge,
            key: master_key_bytes(key.prefix_view(), key.year_view()),
            value: master_encoding(entry@),
        }),
{
    WriteOp {
        keyspace: Keyspace::Master,
        kind: WriteKind::Merge,
        key: key.into_bytes(),
        value: entry.to_bytes(),
    }
}

/// The write that stores a master game under its identifier.
pub fn put_master_game(id: GameId, payload: Vec<u8>) -> (op: WriteOp)
    requires
        id.wf(),
    ensures
        op@ == (WriteOpView {
            keyspace: Keyspace::MasterGame,
            kind: WriteKind::Put,
            key: be_bytes(id@, 6),
            value: payload@,
        }),
{
    let key = slice_to_vec(id.to_bytes().as_slice());
    WriteOp { keyspace: Keyspace::MasterGame, kind: WriteKind::Put, key, value: payload }
}

/// Reads what a point read of the game keyspace returned: no record where
/// nothing is stored.
pub fn get_game_info(value: Option<&[u8]>) -> (r: Result<Option<GameInfo>, DecodeError>)
    ensures
        match value {
            None => r matches Ok(None),
            Some(bytes) => match r {
                Ok(Some(info)) => info_from_bytes(bytes@) == Ok::<_, DecodeError>(info@),
                Ok(None) => false,
                Err(e) => info_from_bytes(bytes@) == Err::<GameInfoView, _>(e),
            },
        },
{
    match value {
        None => Ok(None),
        Some(bytes) => match GameInfo::from_bytes(bytes) {
            Ok(info) => Ok(Some(info)),
            Err(e) => Err(e),
        },
    }
}

} // verus!
