//! Encodings of lists: the items one behind the other, their number known
//! from elsewhere.

use vstd::prelude::*;
use crate::model::reader::DecodeError;

verus! {

/// What decoding gives: a value and the bytes behind it, or an error.
pub type Decoded<T> = Result<(T, Seq<u8>), DecodeError>;

/// The encodings of the items, one behind the other.
pub open spec fn list_encoding<T>(items: Seq<T>, enc: spec_fn(T) -> Seq<u8>) -> Seq<u8>
    decreases items.len(),
{
    if items.len() == 0 {
        Seq::empty()
    } else {
        list_encoding(items.drop_last(), enc) + enc(items.last())
    }
}

/// The first `n` items at the front of `s` and the bytes that follow them.
pub open spec fn list_decoding<T>(
    s: Seq<u8>,
    n: nat,
    dec: spec_fn(Seq<u8>) -> Decoded<T>,
) -> Decoded<Seq<T>>
    decreases n,
{
    if n == 0 {
        Ok((Seq::empty(), s))
    } else {
        match dec(s) {
            Err(e) => Err(e),
            Ok((first, rest)) => match list_decoding(rest, (n - 1) as nat, dec) {
                Err(e) => Err(e),
                Ok((others, rest)) => Ok((seq![first] + others, rest)),
            },
        }
    }
}

/// The encoding of a list starts with the encoding of its first item.
pub proof fn lemma_list_encoding_front<T>(items: Seq<T>, enc: spec_fn(T) -> Seq<u8>)
    requires
        items.len() > 0,
    ensures
        list_encoding(items, enc) == enc(items[0]) + list_encoding(items.skip(1), enc),
    decreases items.len(),
{
    if items.len() == 1 {
        assert(items.drop_last() =~= Seq::<T>::empty());
        assert(items.skip(1) =~= Seq::<T>::empty());
        assert(list_encoding(items.drop_last(), enc) =~= Seq::<u8>::empty());
        assert(list_encoding(items, enc) =~= enc(items[0]) + Seq::<u8>::empty());
    } else {
        let init = items.drop_last();
        lemma_list_encoding_front(init, enc);
        assert(init.skip(1) =~= items.skip(1).drop_last());
        assert(items.skip(1).last() == items.last());
        assert(list_encoding(items, enc) =~= enc(items[0]) + list_encoding(items.skip(1), enc));
    }
}

/// Where each item is read back from its encoding, whatever follows, the
/// list is read back from its encoding, whatever follows.
pub proof fn lemma_list_roundtrip<T>(
    items: Seq<T>,
    enc: spec_fn(T) -> Seq<u8>,
    dec: spec_fn(Seq<u8>) -> Decoded<T>,
    rest: Seq<u8>,
)
    requires
        forall|i: int, r: Seq<u8>|
            0 <= i < items.len() ==> #[trigger] dec(enc(items[i]) + r) == Ok::<_, DecodeError>(
                (items[i], r),
            ),
    ensures
        list_decoding(list_encoding(items, enc) + rest, items.len(), dec) == Ok::<_, DecodeError>(
            (items, rest),
        ),
    decreases items.len(),
{
    if items.len() == 0 {
        assert(list_encoding(items, enc) + rest =~= rest);
        assert(items =~= Seq::<T>::empty());
    } else {
        let tail = items.skip(1);
        lemma_list_encoding_front(items, enc);
        let after = list_encoding(tail, enc) + rest;
        assert(list_encoding(items, enc) + rest =~= enc(items[0]) + after);
        assert(dec(enc(items[0]) + after) == Ok::<_, DecodeError>((items[0], after)));
        assert forall|i: int, r: Seq<u8>| 0 <= i < tail.len() implies #[trigger] dec(
            enc(tail[i]) + r,
        ) == Ok::<_, DecodeError>((tail[i], r)) by {
            assert(tail[i] == items[i + 1]);
        }
        lemma_list_roundtrip(tail, enc, dec, rest);
        assert(seq![items[0]] + tail =~= items);
    }
}

/// Reading `n + 1` items is reading `n` items and then one.
pub proof fn lemma_list_decoding_step<T>(s: Seq<u8>, n: nat, dec: spec_fn(Seq<u8>) -> Decoded<T>)
    ensures
        list_decoding(s, n + 1, dec) == match list_decoding(s, n, dec) {
            Err(e) => Err(e),
            Ok((items, rest)) => match dec(rest) {
                Err(e) => Err(e),
                Ok((last, rest)) => Ok((items.push(last), rest)),
            },
        },
    decreases n,
{
    reveal_with_fuel(list_decoding, 2);
    if n == 0 {
        match dec(s) {
            Err(e) => {},
            Ok((first, rest)) => {
                assert(list_decoding(rest, 0, dec) == Ok::<_, DecodeError>(
                    (Seq::<T>::empty(), rest),
                ));
                assert(seq![first] + Seq::<T>::empty() =~= Seq::<T>::empty().push(first));
                assert(list_decoding(s, 0, dec) == Ok::<_, DecodeError>((Seq::<T>::empty(), s)));
            },
        }
    } else {
        match dec(s) {
            Err(e) => {},
            Ok((first, rest)) => {
                lemma_list_decoding_step(rest, (n - 1) as nat, dec);
                assert(((n - 1) as nat + 1) as nat == n);
                match list_decoding(rest, (n - 1) as nat, dec) {
                    Err(e) => {},
                    Ok((items, rest2)) => {
                        match dec(rest2) {
                            Err(e) => {},
                            Ok((last, rest3)) => {
                                assert(seq![first] + items.push(last) =~= (seq![first]
                                    + items).push(last));
                            },
                        }
                    },
                }
            },
        }
    }
}

/// Once reading the items has failed, reading more of them fails alike.
pub proof fn lemma_list_decoding_fails<T>(
    s: Seq<u8>,
    m: nat,
    n: nat,
    dec: spec_fn(Seq<u8>) -> Decoded<T>,
)
    requires
        m <= n,
        list_decoding(s, m, dec) is Err,
    ensures
        list_decoding(s, n, dec) == list_decoding(s, m, dec),
    decreases n - m,
{
    if m < n {
        lemma_list_decoding_step(s, m, dec);
        lemma_list_decoding_fails(s, m + 1, n, dec);
    }
}

/// Where the item behind the first `m` cannot be read, a longer list cannot
/// be read, for the same reason.
pub proof fn lemma_list_decoding_stops<T>(
    s: Seq<u8>,
    m: nat,
    n: nat,
    dec: spec_fn(Seq<u8>) -> Decoded<T>,
)
    requires
        m < n,
        list_decoding(s, m, dec) is Ok,
        dec(list_decoding(s, m, dec)->Ok_0.1) is Err,
    ensures
        list_decoding(s, n, dec) == Err::<(Seq<T>, Seq<u8>), _>(
            dec(list_decoding(s, m, dec)->Ok_0.1)->Err_0,
        ),
{
    lemma_list_decoding_step(s, m, dec);
    lemma_list_decoding_fails(s, m + 1, n, dec);
}

} // verus!
