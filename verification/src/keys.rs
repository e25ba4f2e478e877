//! Lists of texts in the order of their keys, and the search in them.
//!
//! The key of a text is the text with its ASCII capital letters replaced by
//! small ones. A list is sorted when the key of each text comes before the
//! keys of all texts behind it, so no two texts of a sorted list match.

use vstd::prelude::*;

use crate::text::{
    folded, lemma_precedes_asymmetric, lemma_precedes_total, lemma_precedes_transitive, precedes,
    rank_folded, Rank,
};

verus! {

/// The bytes of each text of `keys`.
pub open spec fn texts(keys: Seq<Vec<u8>>) -> Seq<Seq<u8>> {
    keys.map_values(|k: Vec<u8>| k@)
}

/// Each text of `keys` comes before all texts behind it.
pub open spec fn sorted(keys: Seq<Seq<u8>>) -> bool {
    forall|i: int, j: int|
        0 <= i < j < keys.len() ==> precedes(#[trigger] folded(keys[i]), #[trigger] folded(keys[j]))
}

/// The position of the first text of `keys` that matches `key`.
pub open spec fn position(keys: Seq<Seq<u8>>, key: Seq<u8>) -> Option<int>
    decreases keys.len(),
{
    if keys.len() == 0 {
        None
    } else if folded(keys[0]) == folded(key) {
        Some(0)
    } else {
        match position(keys.drop_first(), key) {
            Some(i) => Some(i + 1),
            None => None,
        }
    }
}

/// The number of texts at the front of `keys` that come before `key`: the
/// position at which `key` belongs in a sorted list.
pub open spec fn slot(keys: Seq<Seq<u8>>, key: Seq<u8>) -> int
    decreases keys.len(),
{
    if keys.len() == 0 {
        0
    } else if precedes(folded(keys[0]), folded(key)) {
        slot(keys.drop_first(), key) + 1
    } else {
        0
    }
}

/// The texts before position `at` come before `key`, and `key` comes before
/// the texts from `at` on.
pub open spec fn splits(keys: Seq<Seq<u8>>, key: Seq<u8>, at: int) -> bool {
    &&& 0 <= at <= keys.len()
    &&& forall|j: int| 0 <= j < at ==> precedes(#[trigger] folded(keys[j]), folded(key))
    &&& forall|j: int| at <= j < keys.len() ==> precedes(folded(key), #[trigger] folded(keys[j]))
}

/// What [`position`] finds is a text that matches, and the first that does.
pub proof fn lemma_position_found(keys: Seq<Seq<u8>>, key: Seq<u8>)
    ensures
        match position(keys, key) {
            Some(i) => {
                &&& 0 <= i < keys.len()
                &&& folded(keys[i]) == folded(key)
                &&& forall|j: int| 0 <= j < i ==> folded(#[trigger] keys[j]) != folded(key)
            },
            None => forall|j: int| 0 <= j < keys.len() ==> folded(#[trigger] keys[j]) != folded(key),
        },
    decreases keys.len(),
{
    if keys.len() > 0 && folded(keys[0]) != folded(key) {
        let rest = keys.drop_first();
        lemma_position_found(rest, key);
        match position(rest, key) {
            Some(i) => {
                assert(rest[i] == keys[i + 1]);
                assert forall|j: int| 0 <= j < i + 1 implies folded(#[trigger] keys[j]) != folded(
                    key,
                ) by {
                    if j > 0 {
                        assert(rest[j - 1] == keys[j]);
                    }
                }
            },
            None => {
                assert forall|j: int| 0 <= j < keys.len() implies folded(#[trigger] keys[j])
                    != folded(key) by {
                    if j > 0 {
                        assert(rest[j - 1] == keys[j]);
                    }
                }
            },
        }
    }
}

/// A text that matches `key`, with none before it that does, is what
/// [`position`] finds.
pub proof fn lemma_position_at(keys: Seq<Seq<u8>>, key: Seq<u8>, at: int)
    requires
        0 <= at < keys.len(),
        folded(keys[at]) == folded(key),
        forall|j: int| 0 <= j < at ==> folded(#[trigger] keys[j]) != folded(key),
    ensures
        position(keys, key) == Some(at),
{
    lemma_position_found(keys, key);
}

/// Where no text matches `key`, [`position`] finds none.
pub proof fn lemma_position_none(keys: Seq<Seq<u8>>, key: Seq<u8>)
    requires
        forall|j: int| 0 <= j < keys.len() ==> folded(#[trigger] keys[j]) != folded(key),
    ensures
        position(keys, key) == None::<int>,
{
    lemma_position_found(keys, key);
}

/// Texts that match are found at the same position.
pub proof fn lemma_position_by_key(keys: Seq<Seq<u8>>, a: Seq<u8>, b: Seq<u8>)
    requires
        folded(a) == folded(b),
    ensures
        position(keys, a) == position(keys, b),
    decreases keys.len(),
{
    if keys.len() > 0 {
        lemma_position_by_key(keys.drop_first(), a, b);
    }
}

/// In a sorted list, the position that splits it around `key` is its slot.
pub proof fn lemma_slot_at(keys: Seq<Seq<u8>>, key: Seq<u8>, at: int)
    requires
        splits(keys, key, at),
    ensures
        slot(keys, key) == at,
    decreases keys.len(),
{
    if keys.len() > 0 {
        if at == 0 {
            assert(precedes(folded(key), folded(keys[0])));
            if precedes(folded(keys[0]), folded(key)) {
                lemma_precedes_asymmetric(folded(keys[0]), folded(key));
            }
        } else {
            assert(precedes(folded(keys[0]), folded(key)));
            let rest = keys.drop_first();
            assert forall|j: int| 0 <= j < at - 1 implies precedes(
                #[trigger] folded(rest[j]),
                folded(key),
            ) by {
                assert(rest[j] == keys[j + 1]);
            }
            assert forall|j: int| at - 1 <= j < rest.len() implies precedes(
                folded(key),
                #[trigger] folded(rest[j]),
            ) by {
                assert(rest[j] == keys[j + 1]);
            }
            lemma_slot_at(rest, key, at - 1);
        }
    }
}

/// A position that splits a list around `key` shows that no text matches `key`.
pub proof fn lemma_splits_none(keys: Seq<Seq<u8>>, key: Seq<u8>, at: int)
    requires
        splits(keys, key, at),
    ensures
        position(keys, key) == None::<int>,
{
    assert forall|j: int| 0 <= j < keys.len() implies folded(#[trigger] keys[j]) != folded(key) by {
        if j < at {
            lemma_precedes_asymmetric(folded(keys[j]), folded(key));
        } else {
            lemma_precedes_asymmetric(folded(key), folded(keys[j]));
        }
    }
    lemma_position_none(keys, key);
}

/// A sorted list stays sorted when a text is put in at the position that
/// splits the list around it.
pub proof fn lemma_insert_sorted(keys: Seq<Seq<u8>>, key: Seq<u8>, at: int)
    requires
        sorted(keys),
        splits(keys, key, at),
    ensures
        sorted(keys.insert(at, key)),
{
    let longer = keys.insert(at, key);
    assert forall|i: int, j: int| 0 <= i < j < longer.len() implies precedes(
        #[trigger] folded(longer[i]),
        #[trigger] folded(longer[j]),
    ) by {
        if j < at {
            assert(longer[i] == keys[i] && longer[j] == keys[j]);
        } else if j == at {
            assert(longer[i] == keys[i]);
        } else if i < at {
            assert(longer[i] == keys[i] && longer[j] == keys[j - 1]);
        } else if i == at {
            assert(longer[j] == keys[j - 1]);
        } else {
            assert(longer[i] == keys[i - 1] && longer[j] == keys[j - 1]);
        }
    }
}

/// In a sorted list a text that matches `key` is the only one that does.
pub proof fn lemma_sorted_position(keys: Seq<Seq<u8>>, key: Seq<u8>, at: int)
    requires
        sorted(keys),
        0 <= at < keys.len(),
        folded(keys[at]) == folded(key),
    ensures
        position(keys, key) == Some(at),
{
    assert forall|j: int| 0 <= j < at implies folded(#[trigger] keys[j]) != folded(key) by {
        assert(precedes(folded(keys[j]), folded(keys[at])));
        lemma_precedes_asymmetric(folded(keys[j]), folded(keys[at]));
    }
    lemma_position_at(keys, key, at);
}

/// In a sorted list without a match for `key`, the slot of `key` splits the
/// list around it.
pub proof fn lemma_slot_splits(keys: Seq<Seq<u8>>, key: Seq<u8>)
    requires
        sorted(keys),
        position(keys, key) == None::<int>,
    ensures
        splits(keys, key, slot(keys, key)),
    decreases keys.len(),
{
    if keys.len() > 0 {
        let rest = keys.drop_first();
        lemma_position_found(keys, key);
        assert(folded(keys[0]) != folded(key));
        lemma_precedes_total(folded(keys[0]), folded(key));
        if precedes(folded(keys[0]), folded(key)) {
            assert forall|i: int, j: int| 0 <= i < j < rest.len() implies precedes(
                #[trigger] folded(rest[i]),
                #[trigger] folded(rest[j]),
            ) by {
                assert(rest[i] == keys[i + 1] && rest[j] == keys[j + 1]);
            }
            assert forall|j: int| 0 <= j < rest.len() implies folded(#[trigger] rest[j]) != folded(
                key,
            ) by {
                assert(rest[j] == keys[j + 1]);
            }
            lemma_position_none(rest, key);
            lemma_slot_splits(rest, key);
            let at = slot(rest, key);
            assert forall|j: int| 0 <= j < at + 1 implies precedes(
                #[trigger] folded(keys[j]),
                folded(key),
            ) by {
                if j > 0 {
                    assert(rest[j - 1] == keys[j]);
                }
            }
            assert forall|j: int| at + 1 <= j < keys.len() implies precedes(
                folded(key),
                #[trigger] folded(keys[j]),
            ) by {
                assert(rest[j - 1] == keys[j]);
            }
        } else {
            assert forall|j: int| 0 <= j < keys.len() implies precedes(
                folded(key),
                #[trigger] folded(keys[j]),
            ) by {
                if j > 0 {
                    lemma_precedes_transitive(folded(key), folded(keys[0]), folded(keys[j]));
                }
            }
        }
    }
}

/// Where a text is found once `key` has been put into a sorted list at the
/// position that splits the list around it: `key` is found where it was
/// put, and every other text where it was, or one position further back.
pub proof fn lemma_position_after_insert(keys: Seq<Seq<u8>>, key: Seq<u8>, at: int, k: Seq<u8>)
    requires
        sorted(keys),
        splits(keys, key, at),
    ensures
        sorted(keys.insert(at, key)),
        position(keys.insert(at, key), k) == if folded(k) == folded(key) {
            Some(at)
        } else {
            match position(keys, k) {
                Some(i) => Some(
                    if i < at {
                        i
                    } else {
                        i + 1
                    },
                ),
                None => None,
            }
        },
{
    let longer = keys.insert(at, key);
    lemma_insert_sorted(keys, key, at);
    if folded(k) == folded(key) {
        lemma_sorted_position(longer, k, at);
    } else {
        lemma_position_found(keys, k);
        match position(keys, k) {
            Some(i) => {
                let moved = if i < at {
                    i
                } else {
                    i + 1
                };
                assert(longer[moved] == keys[i]);
                lemma_sorted_position(longer, k, moved);
            },
            None => {
                assert forall|j: int| 0 <= j < longer.len() implies folded(#[trigger] longer[j])
                    != folded(k) by {
                    if j < at {
                        assert(longer[j] == keys[j]);
                    } else if j > at {
                        assert(longer[j] == keys[j - 1]);
                    }
                }
                lemma_position_none(longer, k);
            },
        }
    }
}

/// The slot of a text `k` once another text `key` has been put into a sorted
/// list: one further back if `key` comes before `k`, the same if not. The
/// two slots lie as the two texts do.
pub proof fn lemma_slot_after_insert(keys: Seq<Seq<u8>>, key: Seq<u8>, at: int, k: Seq<u8>)
    requires
        sorted(keys),
        splits(keys, key, at),
        position(keys, k) == None::<int>,
        folded(k) != folded(key),
    ensures
        precedes(folded(key), folded(k)) ==> at <= slot(keys, k) && slot(keys.insert(at, key), k)
            == slot(keys, k) + 1,
        !precedes(folded(key), folded(k)) ==> slot(keys, k) <= at && slot(keys.insert(at, key), k)
            == slot(keys, k),
{
    let s = slot(keys, k);
    let longer = keys.insert(at, key);
    lemma_slot_splits(keys, k);
    lemma_precedes_total(folded(key), folded(k));
    if precedes(folded(key), folded(k)) {
        if s < at {
            lemma_precedes_transitive(folded(k), folded(keys[s]), folded(key));
            lemma_precedes_asymmetric(folded(k), folded(key));
        }
        assert forall|j: int| 0 <= j < s + 1 implies precedes(
            #[trigger] folded(longer[j]),
            folded(k),
        ) by {
            if j < at {
                assert(longer[j] == keys[j]);
            } else if j > at {
                assert(longer[j] == keys[j - 1]);
            }
        }
        assert forall|j: int| s + 1 <= j < longer.len() implies precedes(
            folded(k),
            #[trigger] folded(longer[j]),
        ) by {
            assert(longer[j] == keys[j - 1]);
        }
        lemma_slot_at(longer, k, s + 1);
    } else {
        if at < s {
            lemma_precedes_transitive(folded(key), folded(keys[at]), folded(k));
        }
        assert forall|j: int| 0 <= j < s implies precedes(#[trigger] folded(longer[j]), folded(k)) by {
            assert(longer[j] == keys[j]);
        }
        assert forall|j: int| s <= j < longer.len() implies precedes(
            folded(k),
            #[trigger] folded(longer[j]),
        ) by {
            if j < at {
                assert(longer[j] == keys[j]);
            } else if j > at {
                assert(longer[j] == keys[j - 1]);
            }
        }
        lemma_slot_at(longer, k, s);
    }
}

/// Searches the sorted list `keys` for a text that matches `key`.
///
/// Returns whether there is one, and its position; where there is none, the
/// position at which `key` belongs.
pub fn search(keys: &Vec<Vec<u8>>, key: &[u8]) -> (found: (bool, usize))
    requires
        sorted(texts(keys@)),
    ensures
        found.0 ==> position(texts(keys@), key@) == Some(found.1 as int),
        !found.0 ==> position(texts(keys@), key@) == None::<int>,
        !found.0 ==> found.1 == slot(texts(keys@), key@),
        !found.0 ==> splits(texts(keys@), key@, found.1 as int),
        found.0 ==> found.1 < keys.len(),
        found.1 <= keys.len(),
{
    let ghost all = texts(keys@);
    let mut lo: usize = 0;
    let mut hi: usize = keys.len();
    while lo < hi
        invariant
            lo <= hi <= keys.len(),
            all == texts(keys@),
            sorted(all),
            forall|j: int| 0 <= j < lo ==> precedes(#[trigger] folded(all[j]), folded(key@)),
            forall|j: int| hi <= j < all.len() ==> precedes(folded(key@), #[trigger] folded(all[j])),
        decreases hi - lo,
    {
        let mid: usize = lo + (hi - lo) / 2;
        proof {
            lemma_precedes_total(folded(all[mid as int]), folded(key@));
        }
        match rank_folded(keys[mid].as_slice(), key) {
            Rank::Before => {
                proof {
                    assert forall|j: int| 0 <= j < mid + 1 implies precedes(
                        #[trigger] folded(all[j]),
                        folded(key@),
                    ) by {
                        if j < mid {
                            lemma_precedes_transitive(
                                folded(all[j]),
                                folded(all[mid as int]),
                                folded(key@),
                            );
                        }
                    }
                }
                lo = mid + 1;
            },
            Rank::Same => {
                proof {
                    lemma_sorted_position(all, key@, mid as int);
                }
                return (true, mid);
            },
            Rank::After => {
                proof {
                    assert forall|j: int| mid <= j < all.len() implies precedes(
                        folded(key@),
                        #[trigger] folded(all[j]),
                    ) by {
                        if j > mid {
                            lemma_precedes_transitive(
                                folded(key@),
                                folded(all[mid as int]),
                                folded(all[j]),
                            );
                        }
                    }
                }
                hi = mid;
            },
        }
    }
    proof {
        assert(splits(all, key@, lo as int));
        lemma_splits_none(all, key@, lo as int);
        lemma_slot_at(all, key@, lo as int);
    }
    (false, lo)
}

} // verus!
