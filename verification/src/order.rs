//! The canonical order of the entries of a tree: by path, and by hash
//! where the paths are equal.

use vstd::prelude::*;
use crate::text::to_chars;

verus! {

/// Whether `a` comes before `b`, or is `b`, in the order of the dictionary.
pub open spec fn lex_le(a: Seq<int>, b: Seq<int>) -> bool
    decreases a.len(),
{
    if a.len() == 0 {
        true
    } else if b.len() == 0 {
        false
    } else {
        a[0] < b[0] || (a[0] == b[0] && lex_le(a.drop_first(), b.drop_first()))
    }
}

/// The code points of a text.
pub open spec fn char_codes(s: Seq<char>) -> Seq<int> {
    s.map_values(|c: char| c as int)
}

/// The values of a sequence of bytes.
pub open spec fn byte_codes(s: Seq<u8>) -> Seq<int> {
    s.map_values(|b: u8| b as int)
}

/// Whether the entry `x` comes before `y`, or is `y`: by path, and by hash
/// where the paths are equal.
pub open spec fn entry_le(x: (Seq<char>, Seq<u8>), y: (Seq<char>, Seq<u8>)) -> bool {
    if x.0 == y.0 {
        lex_le(byte_codes(x.1), byte_codes(y.1))
    } else {
        lex_le(char_codes(x.0), char_codes(y.0))
    }
}

/// `sorted` with `e` put behind the last entry that does not come after it.
pub open spec fn insert_entry(sorted: Seq<(Seq<char>, Seq<u8>)>, e: (Seq<char>, Seq<u8>)) -> Seq<
    (Seq<char>, Seq<u8>),
>
    decreases sorted.len(),
{
    if sorted.len() == 0 {
        seq![e]
    } else if entry_le(sorted.last(), e) {
        sorted.push(e)
    } else {
        insert_entry(sorted.drop_last(), e).push(sorted.last())
    }
}

/// The entries in canonical order.
pub open spec fn sorted_entries(entries: Seq<(Seq<char>, Seq<u8>)>) -> Seq<(Seq<char>, Seq<u8>)>
    decreases entries.len(),
{
    if entries.len() == 0 {
        Seq::empty()
    } else {
        insert_entry(sorted_entries(entries.drop_last()), entries.last())
    }
}

/// Whether each entry comes before the next, or is the next.
pub open spec fn ordered(entries: Seq<(Seq<char>, Seq<u8>)>) -> bool {
    forall|i: int, j: int| 0 <= i < j < entries.len() ==> entry_le(entries[i], entries[j])
}

/// Of two sequences, one comes before the other or is the other.
pub proof fn lemma_lex_total(a: Seq<int>, b: Seq<int>)
    ensures
        lex_le(a, b) || lex_le(b, a),
    decreases a.len(),
{
    if a.len() > 0 && b.len() > 0 {
        lemma_lex_total(a.drop_first(), b.drop_first());
    }
}

/// Two sequences that each come before the other, or are the other, are one.
pub proof fn lemma_lex_antisymmetric(a: Seq<int>, b: Seq<int>)
    requires
        lex_le(a, b),
        lex_le(b, a),
    ensures
        a == b,
    decreases a.len(),
{
    if a.len() > 0 && b.len() > 0 {
        lemma_lex_antisymmetric(a.drop_first(), b.drop_first());
        assert(a =~= seq![a[0]] + a.drop_first());
        assert(b =~= seq![b[0]] + b.drop_first());
    } else {
        assert(a =~= b);
    }
}

/// The order of the dictionary is transitive.
pub proof fn lemma_lex_transitive(a: Seq<int>, b: Seq<int>, c: Seq<int>)
    requires
        lex_le(a, b),
        lex_le(b, c),
    ensures
        lex_le(a, c),
    decreases a.len(),
{
    if a.len() > 0 && b.len() > 0 && c.len() > 0 {
        if a[0] == b[0] && b[0] == c[0] {
            lemma_lex_transitive(a.drop_first(), b.drop_first(), c.drop_first());
        }
    }
}

/// Every sequence comes before itself, or is itself.
pub proof fn lemma_lex_reflexive(a: Seq<int>)
    ensures
        lex_le(a, a),
    decreases a.len(),
{
    if a.len() > 0 {
        lemma_lex_reflexive(a.drop_first());
    }
}

/// Texts with the same code points are the same text.
pub proof fn lemma_char_codes_injective(a: Seq<char>, b: Seq<char>)
    requires
        char_codes(a) == char_codes(b),
    ensures
        a == b,
{
    assert(a.len() == char_codes(a).len());
    assert(b.len() == char_codes(b).len());
    assert forall|i: int| 0 <= i < a.len() implies a[i] == b[i] by {
        assert(char_codes(a)[i] == a[i] as int);
        assert(char_codes(b)[i] == b[i] as int);
    }
    assert(a =~= b);
}

/// Byte sequences with the same values are the same sequence.
pub proof fn lemma_byte_codes_injective(a: Seq<u8>, b: Seq<u8>)
    requires
        byte_codes(a) == byte_codes(b),
    ensures
        a == b,
{
    assert(a.len() == byte_codes(a).len());
    assert(b.len() == byte_codes(b).len());
    assert forall|i: int| 0 <= i < a.len() implies a[i] == b[i] by {
        assert(byte_codes(a)[i] == a[i] as int);
        assert(byte_codes(b)[i] == b[i] as int);
    }
    assert(a =~= b);
}

/// Of two entries, one comes before the other or is the other.
pub proof fn lemma_entry_total(x: (Seq<char>, Seq<u8>), y: (Seq<char>, Seq<u8>))
    ensures
        entry_le(x, y) || entry_le(y, x),
{
    lemma_lex_total(byte_codes(x.1), byte_codes(y.1));
    lemma_lex_total(char_codes(x.0), char_codes(y.0));
}

/// Two entries that each come before the other, or are the other, are one.
pub proof fn lemma_entry_antisymmetric(x: (Seq<char>, Seq<u8>), y: (Seq<char>, Seq<u8>))
    requires
        entry_le(x, y),
        entry_le(y, x),
    ensures
        x == y,
{
    if x.0 == y.0 {
        lemma_lex_antisymmetric(byte_codes(x.1), byte_codes(y.1));
        lemma_byte_codes_injective(x.1, y.1);
    } else {
        lemma_lex_antisymmetric(char_codes(x.0), char_codes(y.0));
        lemma_char_codes_injective(x.0, y.0);
    }
}

/// The order of the entries is transitive.
pub proof fn lemma_entry_transitive(
    x: (Seq<char>, Seq<u8>),
    y: (Seq<char>, Seq<u8>),
    z: (Seq<char>, Seq<u8>),
)
    requires
        entry_le(x, y),
        entry_le(y, z),
    ensures
        entry_le(x, z),
{
    lemma_lex_reflexive(char_codes(x.0));
    lemma_lex_reflexive(char_codes(y.0));
    if x.0 == y.0 && y.0 == z.0 {
        lemma_lex_transitive(byte_codes(x.1), byte_codes(y.1), byte_codes(z.1));
    } else if x.0 == z.0 {
        lemma_lex_antisymmetric(char_codes(x.0), char_codes(y.0));
        lemma_char_codes_injective(x.0, y.0);
    } else {
        lemma_lex_transitive(char_codes(x.0), char_codes(y.0), char_codes(z.0));
    }
}

/// Putting an entry into ordered entries leaves them ordered, and adds the
/// entry and nothing else.
#[verifier::rlimit(50)]
pub proof fn lemma_insert_entry(sorted: Seq<(Seq<char>, Seq<u8>)>, e: (Seq<char>, Seq<u8>))
    requires
        ordered(sorted),
    ensures
        ordered(insert_entry(sorted, e)),
        insert_entry(sorted, e).to_multiset() == sorted.to_multiset().insert(e),
        insert_entry(sorted, e).len() == sorted.len() + 1,
    decreases sorted.len(),
{
    broadcast use vstd::seq_lib::group_to_multiset_ensures;

    let out = insert_entry(sorted, e);
    if sorted.len() == 0 {
        assert(sorted =~= Seq::empty());
        assert(out =~= Seq::<(Seq<char>, Seq<u8>)>::empty().push(e));
    } else if entry_le(sorted.last(), e) {
        assert forall|i: int, j: int| 0 <= i < j < out.len() implies entry_le(out[i], out[j]) by {
            if j == sorted.len() {
                if i < sorted.len() - 1 {
                    lemma_entry_transitive(sorted[i], sorted.last(), e);
                }
            }
        }
    } else {
        let front = sorted.drop_last();
        let inner = insert_entry(front, e);
        lemma_insert_entry(front, e);
        lemma_entry_total(sorted.last(), e);
        assert(sorted =~= front.push(sorted.last()));
        assert forall|i: int, j: int| 0 <= i < j < out.len() implies entry_le(out[i], out[j]) by {
            if j == inner.len() {
                assert(inner.to_multiset().count(inner[i]) > 0);
                if inner[i] == e {
                } else {
                    assert(front.to_multiset().count(inner[i]) > 0);
                    let k = choose|k: int| 0 <= k < front.len() && front[k] == inner[i];
                    assert(entry_le(sorted[k], sorted[sorted.len() - 1]));
                }
            }
        }
        assert(out.to_multiset() =~= sorted.to_multiset().insert(e));
    }
}

/// The entries in canonical order are ordered, and are the entries that
/// were given, each as often as it was given.
pub proof fn lemma_sorted_entries(entries: Seq<(Seq<char>, Seq<u8>)>)
    ensures
        ordered(sorted_entries(entries)),
        sorted_entries(entries).to_multiset() == entries.to_multiset(),
        sorted_entries(entries).len() == entries.len(),
    decreases entries.len(),
{
    broadcast use vstd::seq_lib::group_to_multiset_ensures;

    if entries.len() == 0 {
        assert(entries =~= Seq::empty());
    } else {
        let front = entries.drop_last();
        lemma_sorted_entries(front);
        lemma_insert_entry(sorted_entries(front), entries.last());
        assert(entries =~= front.push(entries.last()));
    }
}

/// Ordered entries are determined by what they hold: two ordered sequences
/// that hold the same entries, each as often, are the same sequence.
#[verifier::rlimit(50)]
pub proof fn lemma_ordered_unique(a: Seq<(Seq<char>, Seq<u8>)>, b: Seq<(Seq<char>, Seq<u8>)>)
    requires
        ordered(a),
        ordered(b),
        a.to_multiset() == b.to_multiset(),
    ensures
        a == b,
    decreases a.len(),
{
    broadcast use vstd::seq_lib::group_to_multiset_ensures;

    assert(a.len() == b.len()) by {
        a.to_multiset_ensures();
        b.to_multiset_ensures();
    }
    if a.len() == 0 {
        assert(a =~= b);
    } else {
        let fa = a.drop_last();
        let fb = b.drop_last();
        assert(a =~= fa.push(a.last()));
        assert(b =~= fb.push(b.last()));
        assert(b.to_multiset().count(a.last()) > 0) by {
            assert(a[a.len() - 1] == a.last());
            assert(a.contains(a.last()));
        }
        assert(a.to_multiset().count(b.last()) > 0) by {
            assert(b[b.len() - 1] == b.last());
            assert(b.contains(b.last()));
        }
        let k = choose|k: int| 0 <= k < b.len() && b[k] == a.last();
        let j = choose|j: int| 0 <= j < a.len() && a[j] == b.last();
        lemma_lex_reflexive(char_codes(a.last().0));
        lemma_lex_reflexive(byte_codes(a.last().1));
        lemma_lex_reflexive(char_codes(b.last().0));
        lemma_lex_reflexive(byte_codes(b.last().1));
        assert(entry_le(a.last(), b.last())) by {
            if k < b.len() - 1 {
                assert(entry_le(b[k], b[b.len() - 1]));
            }
        }
        assert(entry_le(b.last(), a.last())) by {
            if j < a.len() - 1 {
                assert(entry_le(a[j], a[a.len() - 1]));
            }
        }
        lemma_entry_antisymmetric(a.last(), b.last());
        assert(fa.to_multiset() =~= fb.to_multiset()) by {
            assert(a.to_multiset() == fa.to_multiset().insert(a.last()));
            assert(b.to_multiset() == fb.to_multiset().insert(a.last()));
            assert forall|v: (Seq<char>, Seq<u8>)|
                fa.to_multiset().count(v) == fb.to_multiset().count(v) by {
                assert(fa.to_multiset().insert(a.last()).count(v) == fb.to_multiset().insert(
                    a.last(),
                ).count(v));
            }
        }
        lemma_ordered_unique(fa, fb);
    }
}

/// The canonical order does not depend on the order in which the entries
/// are given: sequences that hold the same entries, each as often, have the
/// same entries in canonical order.
pub proof fn lemma_sorted_canonical(a: Seq<(Seq<char>, Seq<u8>)>, b: Seq<(Seq<char>, Seq<u8>)>)
    requires
        a.to_multiset() == b.to_multiset(),
    ensures
        sorted_entries(a) == sorted_entries(b),
{
    lemma_sorted_entries(a);
    lemma_sorted_entries(b);
    lemma_ordered_unique(sorted_entries(a), sorted_entries(b));
}

/// Whether the code points of `a` come before those of `b`, or are those.
pub fn chars_le(a: &Vec<char>, b: &Vec<char>) -> (r: bool)
    ensures
        r == lex_le(char_codes(a@), char_codes(b@)),
{
    let ghost ca = char_codes(a@);
    let ghost cb = char_codes(b@);
    let mut i: usize = 0;
    assert(ca.skip(0) =~= ca);
    assert(cb.skip(0) =~= cb);
    loop
        invariant
            i <= a.len(),
            i <= b.len(),
            ca == char_codes(a@),
            cb == char_codes(b@),
            lex_le(ca, cb) == lex_le(ca.skip(i as int), cb.skip(i as int)),
        decreases a.len() - i,
    {
        proof {
            assert(ca.len() == a@.len());
            assert(cb.len() == b@.len());
            assert(ca.skip(i as int).len() == a@.len() - i);
            assert(cb.skip(i as int).len() == b@.len() - i);
        }
        if i >= a.len() {
            return true;
        }
        if i >= b.len() {
            return false;
        }
        proof {
            assert(ca.skip(i as int).drop_first() =~= ca.skip(i + 1));
            assert(cb.skip(i as int).drop_first() =~= cb.skip(i + 1));
            assert(ca.skip(i as int)[0] == a@[i as int] as int);
            assert(cb.skip(i as int)[0] == b@[i as int] as int);
        }
        let left: char = a[i];
        let right: char = b[i];
        if left < right {
            return true;
        }
        if left > right {
            return false;
        }
        i += 1;
    }
}

/// Whether the values of `a` come before those of `b`, or are those.
pub fn bytes_le(a: &Vec<u8>, b: &Vec<u8>) -> (r: bool)
    ensures
        r == lex_le(byte_codes(a@), byte_codes(b@)),
{
    let ghost ca = byte_codes(a@);
    let ghost cb = byte_codes(b@);
    let mut i: usize = 0;
    assert(ca.skip(0) =~= ca);
    assert(cb.skip(0) =~= cb);
    loop
        invariant
            i <= a.len(),
            i <= b.len(),
            ca == byte_codes(a@),
            cb == byte_codes(b@),
            lex_le(ca, cb) == lex_le(ca.skip(i as int), cb.skip(i as int)),
        decreases a.len() - i,
    {
        proof {
            assert(ca.len() == a@.len());
            assert(cb.len() == b@.len());
            assert(ca.skip(i as int).len() == a@.len() - i);
            assert(cb.skip(i as int).len() == b@.len() - i);
        }
        if i >= a.len() {
            return true;
        }
        if i >= b.len() {
            return false;
        }
        proof {
            assert(ca.skip(i as int).drop_first() =~= ca.skip(i + 1));
            assert(cb.skip(i as int).drop_first() =~= cb.skip(i + 1));
            assert(ca.skip(i as int)[0] == a@[i as int] as int);
            assert(cb.skip(i as int)[0] == b@[i as int] as int);
        }
        if a[i] < b[i] {
            return true;
        }
        if a[i] > b[i] {
            return false;
        }
        i += 1;
    }
}

/// Whether the entry `x` comes before `y`, or is `y`.
pub fn pair_le(x: &(String, crate::object::Hash), y: &(String, crate::object::Hash)) -> (r: bool)
    ensures
        r == entry_le((x.0@, x.1@), (y.0@, y.1@)),
{
    let a = to_chars(x.0.as_str());
    let b = to_chars(y.0.as_str());
    if crate::text::chars_eq(&a, &b) {
        bytes_le(&x.1.0, &y.1.0)
    } else {
        chars_le(&a, &b)
    }
}

/// Putting `e` into `sorted` behind place `at` gives the same as putting it
/// behind the last entry that does not come after it, where every entry
/// from `at` on comes after `e` and the entry before `at` does not.
pub proof fn lemma_insert_at(sorted: Seq<(Seq<char>, Seq<u8>)>, e: (Seq<char>, Seq<u8>), at: int)
    requires
        0 <= at <= sorted.len(),
        forall|k: int| at <= k < sorted.len() ==> !entry_le(sorted[k], e),
        at > 0 ==> entry_le(sorted[at - 1], e),
    ensures
        insert_entry(sorted, e) == sorted.insert(at, e),
    decreases sorted.len(),
{
    if sorted.len() == 0 {
        assert(sorted.insert(at, e) =~= seq![e]);
    } else if at == sorted.len() {
        assert(sorted.insert(at, e) =~= sorted.push(e));
    } else {
        let front = sorted.drop_last();
        lemma_insert_at(front, e, at);
        assert(sorted.insert(at, e) =~= front.insert(at, e).push(sorted.last()));
    }
}

/// The entries of `pairs` in canonical order.
#[verifier::rlimit(50)]
pub fn sort_pairs(pairs: Vec<(String, crate::object::Hash)>) -> (r: Vec<(String, crate::object::Hash)>)
    ensures
        crate::object::pairs_view(r@) == sorted_entries(crate::object::pairs_view(pairs@)),
{
    let ghost given = crate::object::pairs_view(pairs@);
    let mut rest = pairs;
    let mut taken: Vec<(String, crate::object::Hash)> = Vec::new();
    while rest.len() > 0
        invariant
            given == crate::object::pairs_view(pairs@),
            rest@.len() <= pairs@.len(),
            forall|k: int| 0 <= k < rest@.len() ==> rest@[k] == pairs@[k],
            forall|k: int|
                0 <= k < taken@.len() ==> #[trigger] taken@[k] == pairs@[pairs@.len() - 1 - k],
            taken@.len() + rest@.len() == pairs@.len(),
        decreases rest@.len(),
    {
        let e = rest.pop().unwrap();
        taken.push(e);
    }
    let mut r: Vec<(String, crate::object::Hash)> = Vec::new();
    let ghost n = pairs@.len() as int;
    let ghost mut done: int = 0;
    assert(crate::object::pairs_view(r@) =~= sorted_entries(given.take(0)));
    while taken.len() > 0
        invariant
            given == crate::object::pairs_view(pairs@),
            n == pairs@.len(),
            0 <= done <= n,
            taken@.len() == n - done,
            forall|k: int|
                0 <= k < taken@.len() ==> #[trigger] taken@[k] == pairs@[pairs@.len() - 1 - k],
            crate::object::pairs_view(r@) == sorted_entries(given.take(done)),
        decreases taken@.len(),
    {
        let e = taken.pop().unwrap();
        assert(e == pairs@[done]);
        let ghost before = crate::object::pairs_view(r@);
        let ghost ev = (e.0@, e.1@);
        let mut at: usize = r.len();
        while at > 0 && !pair_le(&r[at - 1], &e)
            invariant
                at <= r.len(),
                before == crate::object::pairs_view(r@),
                ev == (e.0@, e.1@),
                forall|k: int| at <= k < before.len() ==> !entry_le(#[trigger] before[k], ev),
            decreases at,
        {
            at -= 1;
        }
        r.insert(at, e);
        proof {
            lemma_insert_at(before, ev, at as int);
            assert(crate::object::pairs_view(r@) =~= before.insert(at as int, ev));
            let next = given.take(done + 1);
            assert(next.drop_last() =~= given.take(done));
            assert(next.last() == ev);
            done = done + 1;
        }
    }
    assert(given.take(n) =~= given);
    r
}

} // verus!
