//! The order in which letter tiles are grouped: by their letter, then by
//! their row, then by their column.

use crate::puzzle::LetterTile;
use vstd::prelude::*;
use vstd::relations::{sorted_by, total_ordering};
use vstd::seq_lib::{lemma_sorted_unique, to_multiset_build, to_multiset_insert};
use vstd::string::StrSliceExecFns;

verus! {

/// What a letter tile is ordered by: its letter, its row and its column.
pub type LetterKey = (Seq<char>, int, int);

/// The texts agree before the place `k`, where `a` ends or has the smaller
/// character.
pub open spec fn text_lt_at(a: Seq<char>, b: Seq<char>, k: int) -> bool {
    &&& 0 <= k <= a.len()
    &&& k < b.len()
    &&& forall|i: int| 0 <= i < k ==> a[i] == b[i]
    &&& k < a.len() ==> (a[k] as u32) < (b[k] as u32)
}

/// The order of texts: at the first place where they differ `a` has the
/// smaller character, or `a` is a proper prefix of `b`.
pub open spec fn text_lt(a: Seq<char>, b: Seq<char>) -> bool {
    exists|k: int| text_lt_at(a, b, k)
}

/// The order of keys: by the letter, then by the row, then by the column.
pub open spec fn key_le(a: LetterKey, b: LetterKey) -> bool {
    text_lt(a.0, b.0) || (a.0 == b.0 && (a.1 < b.1 || (a.1 == b.1 && a.2 <= b.2)))
}

/// `key_le` as a relation.
pub open spec fn key_order() -> spec_fn(LetterKey, LetterKey) -> bool {
    |a: LetterKey, b: LetterKey| key_le(a, b)
}

/// The key of a letter tile.
pub open spec fn key_of(t: LetterTile) -> LetterKey {
    (t.letter@, t.y as int, t.x as int)
}

/// The keys of a list of letter tiles.
pub open spec fn keys_of(tiles: Seq<LetterTile>) -> Seq<LetterKey> {
    Seq::new(tiles.len(), |i: int| key_of(tiles[i]))
}

/// The keys of a list of letter tiles, sorted.
pub open spec fn sorted_keys(tiles: Seq<LetterTile>) -> Seq<LetterKey> {
    keys_of(tiles).sort_by(key_order())
}

/// The order of texts is transitive.
pub proof fn lemma_text_lt_transitive(a: Seq<char>, b: Seq<char>, c: Seq<char>)
    requires
        text_lt(a, b),
        text_lt(b, c),
    ensures
        text_lt(a, c),
{
    let k1 = choose|k: int| text_lt_at(a, b, k);
    let k2 = choose|k: int| text_lt_at(b, c, k);
    let k = if k1 <= k2 {
        k1
    } else {
        k2
    };
    assert(text_lt_at(a, c, k));
}

/// No text is smaller than itself, and of two texts at most one is the
/// smaller.
pub proof fn lemma_text_lt_asymmetric(a: Seq<char>, b: Seq<char>)
    requires
        text_lt(a, b),
    ensures
        !text_lt(b, a),
        a != b,
{
    let k1 = choose|k: int| text_lt_at(a, b, k);
    if text_lt(b, a) {
        let k2 = choose|k: int| text_lt_at(b, a, k);
        assert(false);
    }
}

/// Two characters with the same code are the same character.
pub proof fn lemma_code_injective(c: char, d: char)
    ensures
        c as u32 == d as u32 ==> c == d,
{
}

/// Two texts that agree before the place `k` are equal, or one of them is
/// the smaller.
pub proof fn lemma_text_total_from(a: Seq<char>, b: Seq<char>, k: int)
    requires
        0 <= k <= a.len(),
        k <= b.len(),
        forall|i: int| 0 <= i < k ==> a[i] == b[i],
    ensures
        text_lt(a, b) || a == b || text_lt(b, a),
    decreases a.len() - k,
{
    if k == a.len() {
        if k == b.len() {
            assert(a =~= b);
        } else {
            assert(text_lt_at(a, b, k));
        }
    } else if k == b.len() {
        assert(text_lt_at(b, a, k));
    } else if a[k] == b[k] {
        lemma_text_total_from(a, b, k + 1);
    } else if (a[k] as u32) < (b[k] as u32) {
        assert(text_lt_at(a, b, k));
    } else {
        lemma_code_injective(a[k], b[k]);
        assert(text_lt_at(b, a, k));
    }
}

/// The order of keys is a total order.
pub proof fn lemma_key_order_total()
    ensures
        total_ordering(key_order()),
{
    let r = key_order();
    assert forall|a: LetterKey| #[trigger] r(a, a) by {}
    assert forall|a: LetterKey, b: LetterKey| #[trigger] r(a, b) && #[trigger] r(b, a) implies a
        == b by {
        if text_lt(a.0, b.0) {
            lemma_text_lt_asymmetric(a.0, b.0);
        }
        if text_lt(b.0, a.0) {
            lemma_text_lt_asymmetric(b.0, a.0);
        }
    }
    assert forall|a: LetterKey, b: LetterKey, c: LetterKey| #[trigger]
        r(a, b) && #[trigger] r(b, c) implies r(a, c) by {
        if text_lt(a.0, b.0) && text_lt(b.0, c.0) {
            lemma_text_lt_transitive(a.0, b.0, c.0);
        }
    }
    assert forall|a: LetterKey, b: LetterKey| #[trigger] r(a, b) || #[trigger] r(b, a) by {
        lemma_text_total_from(a.0, b.0, 0);
    }
}

/// Whether the key of `a` comes before the key of `b`, or is the same.
pub fn key_before(a: &LetterTile, b: &LetterTile) -> (r: bool)
    ensures
        r == key_le(key_of(*a), key_of(*b)),
{
    let s = a.letter.as_str();
    let t = b.letter.as_str();
    let n = s.unicode_len();
    let m = t.unicode_len();
    let mut i: usize = 0;
    while i < n && i < m
        invariant
            n == s@.len(),
            m == t@.len(),
            s@ == a.letter@,
            t@ == b.letter@,
            i <= n,
            i <= m,
            forall|k: int| 0 <= k < i ==> s@[k] == t@[k],
        decreases n - i,
    {
        let c = s.get_char(i) as u32;
        let d = t.get_char(i) as u32;
        if c < d {
            proof {
                assert(text_lt_at(s@, t@, i as int));
            }
            return true;
        }
        if c > d {
            proof {
                assert(text_lt_at(t@, s@, i as int));
                lemma_text_lt_asymmetric(t@, s@);
            }
            return false;
        }
        i += 1;
    }
    if i < m {
        proof {
            assert(text_lt_at(s@, t@, i as int));
        }
        true
    } else if i < n {
        proof {
            assert(text_lt_at(t@, s@, i as int));
            lemma_text_lt_asymmetric(t@, s@);
        }
        false
    } else {
        proof {
            assert(s@ =~= t@);
            if text_lt(s@, t@) {
                lemma_text_lt_asymmetric(s@, t@);
            }
        }
        a.y < b.y || (a.y == b.y && a.x <= b.x)
    }
}

/// Whether two letter tiles have the same letter.
pub fn same_letter(a: &LetterTile, b: &LetterTile) -> (r: bool)
    ensures
        r == (a.letter@ == b.letter@),
{
    let s = a.letter.as_str();
    let t = b.letter.as_str();
    let n = s.unicode_len();
    if n != t.unicode_len() {
        return false;
    }
    let mut i: usize = 0;
    while i < n
        invariant
            n == s@.len(),
            n == t@.len(),
            s@ == a.letter@,
            t@ == b.letter@,
            i <= n,
            forall|k: int| 0 <= k < i ==> s@[k] == t@[k],
        decreases n - i,
    {
        if s.get_char(i) != t.get_char(i) {
            return false;
        }
        i += 1;
    }
    proof {
        assert(s@ =~= t@);
    }
    true
}

/// The letter tiles of a list, sorted by their keys.
pub fn sort_letters(tiles: &[LetterTile]) -> (r: Vec<LetterTile>)
    ensures
        keys_of(r@) == sorted_keys(tiles@),
        r@.len() == tiles@.len(),
{
    let ghost order = key_order();
    let mut out: Vec<LetterTile> = Vec::new();
    proof {
        lemma_key_order_total();
        assert(keys_of(out@) =~= Seq::<LetterKey>::empty());
        assert(keys_of(tiles@.take(0)) =~= Seq::<LetterKey>::empty());
    }
    for n in 0..tiles.len()
        invariant
            order == key_order(),
            total_ordering(order),
            out@.len() == n,
            sorted_by(keys_of(out@), order),
            keys_of(out@).to_multiset() == keys_of(tiles@.take(n as int)).to_multiset(),
    {
        let t = LetterTile { y: tiles[n].y, x: tiles[n].x, letter: tiles[n].letter.clone() };
        let ghost key = key_of(t);
        assert(key == key_of(tiles@[n as int]));
        let ghost before = keys_of(out@);
        let mut i: usize = 0;
        while i < out.len() && key_before(&out[i], &t)
            invariant
                i <= out@.len(),
                before == keys_of(out@),
                key == key_of(t),
                forall|k: int| 0 <= k < i ==> key_le(#[trigger] before[k], key),
            decreases out@.len() - i,
        {
            i += 1;
        }
        out.insert(i, t);
        proof {
            let after = keys_of(out@);
            assert(after =~= before.insert(i as int, key));
            assert(sorted_by(after, order)) by {
                assert forall|a: int, b: int| 0 <= a < b < after.len() implies #[trigger] order(
                    after[a],
                    after[b],
                ) by {
                    if b < i {
                        assert(order(before[a], before[b]));
                    } else if b == i {
                        assert(key_le(before[a], key));
                    } else if a == i {
                        assert(!key_le(before[i as int], key));
                        assert(order(key, before[i as int]) || order(before[i as int], key));
                        if b - 1 > i {
                            assert(order(before[i as int], before[b - 1]));
                            assert(order(key, before[i as int]) && order(
                                before[i as int],
                                before[b - 1],
                            ));
                        }
                    } else if a < i {
                        assert(order(before[a], before[b - 1]));
                    } else {
                        assert(order(before[a - 1], before[b - 1]));
                    }
                }
            }
            assert(keys_of(tiles@.take(n + 1)) =~= keys_of(tiles@.take(n as int)).push(key));
            to_multiset_insert(before, i as int, key);
            to_multiset_build(keys_of(tiles@.take(n as int)), key);
        }
    }
    proof {
        assert(tiles@.take(tiles@.len() as int) =~= tiles@);
        keys_of(tiles@).lemma_sort_by_ensures(order);
        lemma_sorted_unique(keys_of(out@), sorted_keys(tiles@), order);
    }
    out
}

} // verus!
