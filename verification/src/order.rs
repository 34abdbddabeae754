//! Lexicographic ordering of strings and sorted-sequence helpers.
//!
//! Every listing the store produces is ordered by the natural (code point,
//! equivalently UTF-8 byte) order of strings; this module defines that order,
//! proves it a strict total order, and supplies the verified comparison the
//! executable code uses.

use vstd::prelude::*;
use vstd::string::StrSliceExecFns;

verus! {

/// Code-point order on characters.
pub open spec fn char_lt(a: char, b: char) -> bool {
    a < b
}

/// Lexicographic order on character sequences: a proper prefix comes first.
pub open spec fn lex_lt(a: Seq<char>, b: Seq<char>) -> bool
    decreases a.len(),
{
    if b.len() == 0 {
        false
    } else if a.len() == 0 {
        true
    } else if char_lt(a[0], b[0]) {
        true
    } else if char_lt(b[0], a[0]) {
        false
    } else {
        lex_lt(a.drop_first(), b.drop_first())
    }
}

pub proof fn lex_lt_irreflexive(a: Seq<char>)
    ensures
        !lex_lt(a, a),
    decreases a.len(),
{
    if a.len() > 0 {
        lex_lt_irreflexive(a.drop_first());
    }
}

pub proof fn lex_lt_connected(a: Seq<char>, b: Seq<char>)
    ensures
        a != b ==> lex_lt(a, b) || lex_lt(b, a),
    decreases a.len(),
{
    if a.len() == 0 && b.len() == 0 {
        assert(a =~= b);
    }
    if a.len() > 0 && b.len() > 0 && !char_lt(a[0], b[0]) && !char_lt(b[0], a[0]) {
        lex_lt_connected(a.drop_first(), b.drop_first());
        if a.drop_first() == b.drop_first() {
            assert(a.drop_first().len() == a.len() - 1);
            assert(b.drop_first().len() == b.len() - 1);
            assert(a.len() == b.len());
            assert(a[0] == b[0]);
            assert forall|i: int| 0 <= i < a.len() implies a[i] == b[i] by {
                if i > 0 {
                    assert(a.drop_first()[i - 1] == a[i]);
                    assert(b.drop_first()[i - 1] == b[i]);
                }
            }
            assert(a =~= b);
        }
    }
}

pub proof fn lex_lt_transitive(a: Seq<char>, b: Seq<char>, c: Seq<char>)
    ensures
        lex_lt(a, b) && lex_lt(b, c) ==> lex_lt(a, c),
    decreases a.len(),
{
    if a.len() > 0 && b.len() > 0 && c.len() > 0 {
        lex_lt_transitive(a.drop_first(), b.drop_first(), c.drop_first());
    }
}

/// `lex_lt` is asymmetric: both directions at once are impossible.
pub proof fn lex_lt_asymmetric(a: Seq<char>, b: Seq<char>)
    ensures
        !(lex_lt(a, b) && lex_lt(b, a)),
{
    lex_lt_transitive(a, b, a);
    lex_lt_irreflexive(a);
}

/// A strict total order given by a `lt` predicate.
pub open spec fn strict_order<A>(lt: spec_fn(A, A) -> bool) -> bool {
    &&& forall|a: A| !(#[trigger] lt(a, a))
    &&& forall|a: A, b: A, c: A| #[trigger] lt(a, b) && #[trigger] lt(b, c) ==> lt(a, c)
    &&& forall|a: A, b: A| a != b ==> #[trigger] lt(a, b) || lt(b, a)
}

/// The string order as one shared function value.
pub open spec fn lex_order() -> spec_fn(Seq<char>, Seq<char>) -> bool {
    |a: Seq<char>, b: Seq<char>| lex_lt(a, b)
}

pub proof fn lex_lt_strict_order()
    ensures
        strict_order(lex_order()),
{
    let lt = lex_order();
    assert forall|a: Seq<char>| !(#[trigger] lt(a, a)) by {
        lex_lt_irreflexive(a);
    }
    assert forall|a: Seq<char>, b: Seq<char>, c: Seq<char>|
        #[trigger] lt(a, b) && #[trigger] lt(b, c) implies lt(a, c) by {
        lex_lt_transitive(a, b, c);
    }
    assert forall|a: Seq<char>, b: Seq<char>| a != b implies #[trigger] lt(a, b) || lt(b, a) by {
        lex_lt_connected(a, b);
    }
}

/// The sequence is strictly ascending under `lt` (hence free of duplicates).
pub open spec fn sorted_by<A>(s: Seq<A>, lt: spec_fn(A, A) -> bool) -> bool {
    forall|i: int, j: int| 0 <= i < j < s.len() ==> lt(s[i], s[j])
}

/// Insert `x` into a sorted sequence, keeping it sorted; a no-op when `x`
/// is already present.
pub open spec fn insert_sorted<A>(s: Seq<A>, x: A, lt: spec_fn(A, A) -> bool) -> Seq<A>
    decreases s.len(),
{
    if s.len() == 0 {
        seq![x]
    } else if s[0] == x {
        s
    } else if lt(x, s[0]) {
        seq![x] + s
    } else {
        seq![s[0]] + insert_sorted(s.drop_first(), x, lt)
    }
}

/// Remove the first occurrence of `x`, if any.
pub open spec fn remove_one<A>(s: Seq<A>, x: A) -> Seq<A>
    decreases s.len(),
{
    if s.len() == 0 {
        s
    } else if s[0] == x {
        s.drop_first()
    } else {
        seq![s[0]] + remove_one(s.drop_first(), x)
    }
}

pub proof fn sorted_by_drop_first<A>(s: Seq<A>, lt: spec_fn(A, A) -> bool)
    requires
        sorted_by(s, lt),
        s.len() > 0,
    ensures
        sorted_by(s.drop_first(), lt),
{
    assert forall|i: int, j: int| 0 <= i < j < s.drop_first().len() implies lt(
        s.drop_first()[i],
        s.drop_first()[j],
    ) by {
        assert(s.drop_first()[i] == s[i + 1]);
        assert(s.drop_first()[j] == s[j + 1]);
    }
}

/// What membership in an insertion result means.
pub proof fn insert_sorted_contains<A>(s: Seq<A>, x: A, lt: spec_fn(A, A) -> bool)
    ensures
        forall|y: A| #[trigger]
            insert_sorted(s, x, lt).contains(y) <==> s.contains(y) || y == x,
    decreases s.len(),
{
    let r = insert_sorted(s, x, lt);
    if s.len() == 0 {
        assert forall|y: A| #[trigger] r.contains(y) <==> s.contains(y) || y == x by {
            assert(r[0] == x);
        }
    } else if s[0] == x {
        assert(s.contains(x)) by {
            assert(s[0] == x);
        }
    } else if lt(x, s[0]) {
        assert forall|y: A| #[trigger] r.contains(y) <==> s.contains(y) || y == x by {
            if r.contains(y) {
                let i = choose|i: int| 0 <= i < r.len() && r[i] == y;
                if i > 0 {
                    assert(s[i - 1] == y);
                }
            }
            if s.contains(y) {
                let i = choose|i: int| 0 <= i < s.len() && s[i] == y;
                assert(r[i + 1] == y);
            }
            if y == x {
                assert(r[0] == x);
            }
        }
    } else {
        insert_sorted_contains(s.drop_first(), x, lt);
        let rr = insert_sorted(s.drop_first(), x, lt);
        assert forall|y: A| #[trigger] r.contains(y) <==> s.contains(y) || y == x by {
            if r.contains(y) {
                let i = choose|i: int| 0 <= i < r.len() && r[i] == y;
                if i == 0 {
                    assert(s[0] == y);
                } else {
                    assert(rr.contains(y)) by {
                        assert(rr[i - 1] == y);
                    }
                    if rr[i - 1] != x {
                        assert(s.drop_first().contains(rr[i - 1]));
                        let j = choose|j: int|
                            0 <= j < s.drop_first().len() && s.drop_first()[j] == y;
                        assert(s[j + 1] == y);
                    }
                }
            }
            if s.contains(y) {
                let i = choose|i: int| 0 <= i < s.len() && s[i] == y;
                if i == 0 {
                    assert(r[0] == y);
                } else {
                    assert(s.drop_first()[i - 1] == y);
                    assert(rr.contains(y));
                    let j = choose|j: int| 0 <= j < rr.len() && rr[j] == y;
                    assert(r[j + 1] == y);
                }
            }
            if y == x {
                assert(rr.contains(x));
                let j = choose|j: int| 0 <= j < rr.len() && rr[j] == x;
                assert(r[j + 1] == x);
            }
        }
    }
}

/// Removing one value leaves membership of every other value unchanged.
pub proof fn remove_one_contains_other<A>(s: Seq<A>, x: A, y: A)
    requires
        y != x,
    ensures
        remove_one(s, x).contains(y) <==> s.contains(y),
    decreases s.len(),
{
    let r = remove_one(s, x);
    if s.len() == 0 {
    } else if s[0] == x {
        if r.contains(y) {
            let i = choose|i: int| 0 <= i < r.len() && r[i] == y;
            assert(s[i + 1] == y);
        }
        if s.contains(y) {
            let i = choose|i: int| 0 <= i < s.len() && s[i] == y;
            assert(i > 0);
            assert(r[i - 1] == y);
        }
    } else {
        remove_one_contains_other(s.drop_first(), x, y);
        let rr = remove_one(s.drop_first(), x);
        if r.contains(y) {
            let i = choose|i: int| 0 <= i < r.len() && r[i] == y;
            if i == 0 {
                assert(s[0] == y);
            } else {
                assert(rr[i - 1] == y);
                assert(rr.contains(y));
                let j = choose|j: int| 0 <= j < s.drop_first().len() && s.drop_first()[j] == y;
                assert(s[j + 1] == y);
            }
        }
        if s.contains(y) {
            let i = choose|i: int| 0 <= i < s.len() && s[i] == y;
            if i == 0 {
                assert(r[0] == y);
            } else {
                assert(s.drop_first()[i - 1] == y);
                assert(rr.contains(y));
                let j = choose|j: int| 0 <= j < rr.len() && rr[j] == y;
                assert(r[j + 1] == y);
            }
        }
    }
}

/// Insertion keeps the sequence sorted.
pub proof fn insert_sorted_keeps_sorted<A>(s: Seq<A>, x: A, lt: spec_fn(A, A) -> bool)
    requires
        strict_order(lt),
        sorted_by(s, lt),
    ensures
        sorted_by(insert_sorted(s, x, lt), lt),
    decreases s.len(),
{
    let r = insert_sorted(s, x, lt);
    if s.len() == 0 {
    } else if s[0] == x {
    } else if lt(x, s[0]) {
        assert forall|i: int, j: int| 0 <= i < j < r.len() implies lt(r[i], r[j]) by {
            if i == 0 {
                assert(r[j] == s[j - 1]);
                if j > 1 {
                    assert(lt(s[0], s[j - 1]));
                }
            } else {
                assert(r[i] == s[i - 1] && r[j] == s[j - 1]);
            }
        }
    } else {
        sorted_by_drop_first(s, lt);
        insert_sorted_keeps_sorted(s.drop_first(), x, lt);
        insert_sorted_contains(s.drop_first(), x, lt);
        let rr = insert_sorted(s.drop_first(), x, lt);
        // the head is below everything that follows it
        assert(lt(s[0], x));
        assert forall|i: int, j: int| 0 <= i < j < r.len() implies lt(r[i], r[j]) by {
            if i == 0 {
                assert(rr.contains(rr[j - 1]));
                if rr[j - 1] != x {
                    assert(s.drop_first().contains(rr[j - 1]));
                    let k = choose|k: int|
                        0 <= k < s.drop_first().len() && s.drop_first()[k] == rr[j - 1];
                    assert(s[k + 1] == rr[j - 1]);
                    assert(lt(s[0], s[k + 1]));
                }
            } else {
                assert(r[i] == rr[i - 1] && r[j] == rr[j - 1]);
            }
        }
    }
}

/// Removal keeps the sequence sorted.
pub proof fn remove_one_keeps_sorted<A>(s: Seq<A>, x: A, lt: spec_fn(A, A) -> bool)
    requires
        sorted_by(s, lt),
    ensures
        sorted_by(remove_one(s, x), lt),
    decreases s.len(),
{
    let r = remove_one(s, x);
    if s.len() == 0 {
    } else if s[0] == x {
        if s.len() > 0 {
            sorted_by_drop_first(s, lt);
        }
    } else {
        sorted_by_drop_first(s, lt);
        remove_one_keeps_sorted(s.drop_first(), x, lt);
        let rr = remove_one(s.drop_first(), x);
        assert forall|i: int, j: int| 0 <= i < j < r.len() implies lt(r[i], r[j]) by {
            if i == 0 {
                assert(r[j] == rr[j - 1]);
                remove_one_stays_within(s.drop_first(), x, j - 1);
                let k = choose|k: int|
                    0 <= k < s.drop_first().len() && s.drop_first()[k] == rr[j - 1];
                assert(s[k + 1] == rr[j - 1]);
                assert(lt(s[0], s[k + 1]));
            } else {
                assert(r[i] == rr[i - 1] && r[j] == rr[j - 1]);
            }
        }
    }
}

/// Every element of a removal result was an element of the source.
pub proof fn remove_one_stays_within<A>(s: Seq<A>, x: A, i: int)
    requires
        0 <= i < remove_one(s, x).len(),
    ensures
        s.contains(remove_one(s, x)[i]),
    decreases s.len(),
{
    let r = remove_one(s, x);
    if s.len() == 0 {
    } else if s[0] == x {
        assert(s[i + 1] == r[i]);
    } else {
        if i == 0 {
            assert(s[0] == r[0]);
        } else {
            remove_one_stays_within(s.drop_first(), x, i - 1);
            let rr = remove_one(s.drop_first(), x);
            assert(rr[i - 1] == r[i]);
            let j = choose|j: int| 0 <= j < s.drop_first().len() && s.drop_first()[j] == rr[i - 1];
            assert(s[j + 1] == r[i]);
        }
    }
}

/// Where the scan of a sorted sequence stops is where the insertion spec
/// puts the new element.
pub proof fn insert_sorted_at<A>(s: Seq<A>, x: A, lt: spec_fn(A, A) -> bool, j: int)
    requires
        strict_order(lt),
        sorted_by(s, lt),
        0 <= j <= s.len(),
        forall|i: int| 0 <= i < j ==> lt(s[i], x),
        j < s.len() ==> s[j] == x || lt(x, s[j]),
    ensures
        j < s.len() && s[j] == x ==> insert_sorted(s, x, lt) == s,
        !(j < s.len() && s[j] == x) ==> insert_sorted(s, x, lt) == s.take(j) + seq![x] + s.skip(
            j,
        ),
    decreases s.len(),
{
    let r = insert_sorted(s, x, lt);
    if j == 0 {
        if s.len() == 0 {
            assert(r =~= s.take(0) + seq![x] + s.skip(0));
        } else if s[0] == x {
        } else {
            assert(lt(x, s[0]));
            assert(r =~= s.take(0) + seq![x] + s.skip(0));
        }
    } else {
        assert(lt(s[0], x));
        assert(s[0] != x);
        assert(!lt(x, s[0]));
        sorted_by_drop_first(s, lt);
        let d = s.drop_first();
        assert forall|i: int| 0 <= i < j - 1 implies lt(d[i], x) by {
            assert(d[i] == s[i + 1]);
        }
        if j - 1 < d.len() {
            assert(d[j - 1] == s[j]);
        }
        insert_sorted_at(d, x, lt, j - 1);
        if j < s.len() && s[j] == x {
            assert(r =~= seq![s[0]] + d);
            assert(r =~= s);
        } else {
            assert(r =~= seq![s[0]] + (d.take(j - 1) + seq![x] + d.skip(j - 1)));
            assert(r =~= s.take(j) + seq![x] + s.skip(j));
        }
    }
}

/// Removing an element that the scan found at position `j`.
pub proof fn remove_one_at<A>(s: Seq<A>, x: A, j: int)
    requires
        0 <= j < s.len(),
        s[j] == x,
        forall|i: int| 0 <= i < j ==> s[i] != x,
    ensures
        remove_one(s, x) == s.take(j) + s.skip(j + 1),
    decreases s.len(),
{
    let r = remove_one(s, x);
    if j == 0 {
        assert(r =~= s.take(0) + s.skip(1));
    } else {
        let d = s.drop_first();
        assert(d[j - 1] == s[j]);
        assert forall|i: int| 0 <= i < j - 1 implies d[i] != x by {
            assert(d[i] == s[i + 1]);
        }
        remove_one_at(d, x, j - 1);
        assert(r =~= seq![s[0]] + (d.take(j - 1) + d.skip(j)));
        assert(r =~= s.take(j) + s.skip(j + 1));
    }
}

/// A value absent from the whole sequence is not removed.
pub proof fn remove_one_absent<A>(s: Seq<A>, x: A)
    requires
        forall|i: int| 0 <= i < s.len() ==> s[i] != x,
    ensures
        remove_one(s, x) == s,
    decreases s.len(),
{
    if s.len() > 0 {
        let d = s.drop_first();
        assert forall|i: int| 0 <= i < d.len() implies d[i] != x by {
            assert(d[i] == s[i + 1]);
        }
        remove_one_absent(d, x);
        assert(remove_one(s, x) =~= s);
    }
}

/// Compare two strings in lexicographic code-point order.
pub fn str_lt(a: &str, b: &str) -> (r: bool)
    ensures
        r == lex_lt(a@, b@),
{
    let alen = a.unicode_len();
    let blen = b.unicode_len();
    let mut i: usize = 0;
    proof {
        assert(a@.skip(0) =~= a@);
        assert(b@.skip(0) =~= b@);
    }
    loop
        invariant
            i <= alen,
            i <= blen,
            alen == a@.len(),
            blen == b@.len(),
            lex_lt(a@, b@) == lex_lt(a@.skip(i as int), b@.skip(i as int)),
        decreases alen - i,
    {
        if i == alen || i == blen {
            assert(lex_lt(a@.skip(i as int), b@.skip(i as int)) == (alen < blen));
            return alen < blen;
        }
        let ca = a.get_char(i);
        let cb = b.get_char(i);
        proof {
            let sa = a@.skip(i as int);
            let sb = b@.skip(i as int);
            assert(sa[0] == a@[i as int] && sb[0] == b@[i as int]);
            assert(sa.drop_first() =~= a@.skip(i as int + 1));
            assert(sb.drop_first() =~= b@.skip(i as int + 1));
        }
        if ca < cb {
            return true;
        }
        if cb < ca {
            return false;
        }
        i = i + 1;
    }
}

/// Equality of two string slices, decided through the order.
pub fn str_eq(a: &str, b: &str) -> (r: bool)
    ensures
        r == (a@ == b@),
{
    let lt = str_lt(a, b);
    let gt = str_lt(b, a);
    proof {
        lex_lt_connected(a@, b@);
        lex_lt_irreflexive(a@);
    }
    !lt && !gt
}

} // verus!
