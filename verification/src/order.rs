//! The order in which keys are kept: text by code point, pairs component by component.

use vstd::prelude::*;

verus! {

/// Where one key stands relative to another.
#[derive(Clone, Copy, Debug, PartialEq, Eq, Structural)]
pub enum Placement {
    Before,
    Same,
    After,
}

/// `a` and `b` agree on their first `n` characters, and what follows puts `a` first: `a` ends
/// there while `b` goes on, or `a` continues with the smaller code point.
pub open spec fn leads_from(a: Seq<char>, b: Seq<char>, n: int) -> bool {
    &&& 0 <= n <= a.len()
    &&& n < b.len()
    &&& forall|i: int| 0 <= i < n ==> #[trigger] a[i] == b[i]
    &&& n == a.len() || a[n] < b[n]
}

/// Lexicographic order of text by code point.
pub open spec fn text_before(a: Seq<char>, b: Seq<char>) -> bool {
    exists|n: int| leads_from(a, b, n)
}

/// Order of pairs of texts: the first component decides, then the second.
pub open spec fn pair_before(a: (Seq<char>, Seq<char>), b: (Seq<char>, Seq<char>)) -> bool {
    text_before(a.0, b.0) || (a.0 == b.0 && text_before(a.1, b.1))
}

/// No text stands before itself.
pub proof fn lemma_text_irreflexive(a: Seq<char>)
    ensures
        !text_before(a, a),
{
}

/// Text order is transitive.
pub proof fn lemma_text_transitive(a: Seq<char>, b: Seq<char>, c: Seq<char>)
    requires
        text_before(a, b),
        text_before(b, c),
    ensures
        text_before(a, c),
{
    let m: int = choose|m: int| leads_from(a, b, m);
    let n: int = choose|n: int| leads_from(b, c, n);
    let least: int = if m <= n { m } else { n };
    assert(leads_from(a, c, least)) by {
        assert forall|i: int| 0 <= i < least implies #[trigger] a[i] == c[i] by {
            assert(a[i] == b[i]);
            assert(b[i] == c[i]);
        }
    }
}

/// Of two texts one stands before the other, or they are equal.
pub proof fn lemma_text_total(a: Seq<char>, b: Seq<char>)
    ensures
        a == b || text_before(a, b) || text_before(b, a),
{
    lemma_text_total_from(a, b, 0);
}

proof fn lemma_text_total_from(a: Seq<char>, b: Seq<char>, n: int)
    requires
        0 <= n <= a.len(),
        n <= b.len(),
        forall|i: int| 0 <= i < n ==> #[trigger] a[i] == b[i],
    ensures
        a == b || text_before(a, b) || text_before(b, a),
    decreases a.len() - n,
{
    if n == a.len() && n == b.len() {
        assert(a =~= b);
    } else if n == a.len() {
        assert(leads_from(a, b, n));
    } else if n == b.len() {
        assert(leads_from(b, a, n));
    } else if a[n] < b[n] {
        assert(leads_from(a, b, n));
    } else if b[n] < a[n] {
        assert(leads_from(b, a, n));
    } else {
        lemma_text_total_from(a, b, n + 1);
    }
}

/// Keys with a strict total order on what they stand for.
pub trait OrderedKey: View + Sized {
    /// `a` stands strictly before `b`.
    spec fn before(a: <Self as View>::V, b: <Self as View>::V) -> bool;

    proof fn before_irreflexive(a: <Self as View>::V)
        ensures
            !Self::before(a, a),
    ;

    proof fn before_transitive(a: <Self as View>::V, b: <Self as View>::V, c: <Self as View>::V)
        requires
            Self::before(a, b),
            Self::before(b, c),
        ensures
            Self::before(a, c),
    ;

    proof fn before_total(a: <Self as View>::V, b: <Self as View>::V)
        ensures
            a == b || Self::before(a, b) || Self::before(b, a),
    ;

    /// Where this key stands relative to `other`.
    fn place(&self, other: &Self) -> (p: Placement)
        ensures
            match p {
                Placement::Before => Self::before(self@, other@),
                Placement::Same => self@ == other@,
                Placement::After => Self::before(other@, self@),
            },
    ;
}

/// Where the text `a` stands relative to the text `b`.
pub fn place_text(a: &str, b: &str) -> (p: Placement)
    ensures
        match p {
            Placement::Before => text_before(a@, b@),
            Placement::Same => a@ == b@,
            Placement::After => text_before(b@, a@),
        },
{
    broadcast use vstd::string::group_string_axioms;

    let mut left = a.chars();
    let mut right = b.chars();
    let ghost mut n: int = 0;
    assert(a@.skip(0) =~= a@);
    assert(b@.skip(0) =~= b@);
    loop
        invariant
            0 <= n <= a@.len(),
            n <= b@.len(),
            forall|i: int| 0 <= i < n ==> #[trigger] a@[i] == b@[i],
            vstd::std_specs::iter::IteratorSpec::remaining(&left) == a@.skip(n),
            vstd::std_specs::iter::IteratorSpec::remaining(&right) == b@.skip(n),
        decreases a@.len() - n,
    {
        broadcast use vstd::string::group_string_axioms;

        let next_left = left.next();
        let next_right = right.next();
        match (next_left, next_right) {
            (None, None) => {
                assert(a@ =~= b@);
                return Placement::Same;
            },
            (None, Some(_)) => {
                assert(leads_from(a@, b@, n));
                return Placement::Before;
            },
            (Some(_), None) => {
                assert(leads_from(b@, a@, n));
                return Placement::After;
            },
            (Some(x), Some(y)) => {
                assert(x == a@[n]);
                assert(y == b@[n]);
                if x < y {
                    assert(leads_from(a@, b@, n));
                    return Placement::Before;
                }
                if y < x {
                    assert(leads_from(b@, a@, n));
                    return Placement::After;
                }
                proof {
                    assert(a@.skip(n).drop_first() =~= a@.skip(n + 1));
                    assert(b@.skip(n).drop_first() =~= b@.skip(n + 1));
                    n = n + 1;
                }
            },
        }
    }
}

impl OrderedKey for String {
    open spec fn before(a: Seq<char>, b: Seq<char>) -> bool {
        text_before(a, b)
    }

    proof fn before_irreflexive(a: Seq<char>) {
        lemma_text_irreflexive(a);
    }

    proof fn before_transitive(a: Seq<char>, b: Seq<char>, c: Seq<char>) {
        lemma_text_transitive(a, b, c);
    }

    proof fn before_total(a: Seq<char>, b: Seq<char>) {
        lemma_text_total(a, b);
    }

    fn place(&self, other: &Self) -> (p: Placement) {
        place_text(self.as_str(), other.as_str())
    }
}

impl OrderedKey for (String, String) {
    open spec fn before(a: (Seq<char>, Seq<char>), b: (Seq<char>, Seq<char>)) -> bool {
        pair_before(a, b)
    }

    proof fn before_irreflexive(a: (Seq<char>, Seq<char>)) {
        lemma_text_irreflexive(a.0);
        lemma_text_irreflexive(a.1);
    }

    proof fn before_transitive(
        a: (Seq<char>, Seq<char>),
        b: (Seq<char>, Seq<char>),
        c: (Seq<char>, Seq<char>),
    ) {
        if text_before(a.0, b.0) && text_before(b.0, c.0) {
            lemma_text_transitive(a.0, b.0, c.0);
        }
        if text_before(a.1, b.1) && text_before(b.1, c.1) {
            lemma_text_transitive(a.1, b.1, c.1);
        }
    }

    proof fn before_total(a: (Seq<char>, Seq<char>), b: (Seq<char>, Seq<char>)) {
        lemma_text_total(a.0, b.0);
        lemma_text_total(a.1, b.1);
    }

    fn place(&self, other: &Self) -> (p: Placement) {
        match place_text(self.0.as_str(), other.0.as_str()) {
            Placement::Same => place_text(self.1.as_str(), other.1.as_str()),
            decided => decided,
        }
    }
}

/// Text stands in the order of code points: a text stands before every longer one that begins with
/// it, and of two texts that first differ in a character, the one with the smaller code point
/// stands before the other, whatever follows.
pub proof fn text_stands_by_code_point(
    front: Seq<char>,
    x: char,
    y: char,
    a: Seq<char>,
    b: Seq<char>,
)
    requires
        x < y,
    ensures
        text_before(front, front.push(x) + a),
        text_before(front.push(x) + a, front.push(y) + b),
        !text_before(front.push(y) + b, front.push(x) + a),
        !text_before(front.push(x) + a, front),
{
    let n = front.len() as int;
    let smaller = front.push(x) + a;
    let larger = front.push(y) + b;
    assert(leads_from(front, smaller, n));
    assert(leads_from(smaller, larger, n));
    if text_before(larger, smaller) {
        lemma_text_transitive(smaller, larger, smaller);
        lemma_text_irreflexive(smaller);
    }
    if text_before(smaller, front) {
        lemma_text_transitive(front, smaller, front);
        lemma_text_irreflexive(front);
    }
}

} // verus!
