//! A textual element type: an owned byte string ordered
//! lexicographically, so that sets can hold names and labels.

use vstd::prelude::*;

use crate::order::Cmp;
use crate::order::TotalOrder;

verus! {

/// The strict lexicographic order on byte strings: a proper prefix
/// comes first, and otherwise the first differing byte decides.
pub open spec fn lex_lt(a: Seq<u8>, b: Seq<u8>) -> bool
    decreases a.len(),
{
    if b.len() == 0 {
        false
    } else if a.len() == 0 {
        true
    } else if a[0] < b[0] {
        true
    } else if b[0] < a[0] {
        false
    } else {
        lex_lt(a.drop_first(), b.drop_first())
    }
}

/// An owned byte string, compared lexicographically.
#[derive(Clone, Debug)]
pub struct Text {
    bytes: Vec<u8>,
}

impl View for Text {
    type V = Seq<u8>;

    closed spec fn view(&self) -> Seq<u8> {
        self.bytes@
    }
}

impl Text {
    /// Builds a text from its bytes.
    pub fn from_vec(bytes: Vec<u8>) -> (r: Text)
        ensures
            r@ == bytes@,
    {
        Text { bytes }
    }

    /// Borrows the underlying bytes.
    pub fn as_bytes(&self) -> (r: &[u8])
        ensures
            r@ == self@,
    {
        self.bytes.as_slice()
    }
}

/// The lexicographic order is transitive.
proof fn lemma_lex_transitive(a: Seq<u8>, b: Seq<u8>, c: Seq<u8>)
    requires
        lex_lt(a, b),
        lex_lt(b, c),
    ensures
        lex_lt(a, c),
    decreases a.len() + b.len() + c.len(),
{
    if a.len() == 0 {
        // c cannot be empty, else lex_lt(b, c) would fail.
    } else if b.len() == 0 {
        assert(false);
    } else if c.len() == 0 {
        assert(false);
    } else {
        if a[0] == b[0] && b[0] == c[0] {
            lemma_lex_transitive(a.drop_first(), b.drop_first(), c.drop_first());
        }
    }
}

/// Distinct byte strings are ordered one way or the other.
proof fn lemma_lex_connected(a: Seq<u8>, b: Seq<u8>)
    requires
        a != b,
    ensures
        lex_lt(a, b) || lex_lt(b, a),
    decreases a.len() + b.len(),
{
    if a.len() == 0 && b.len() == 0 {
        assert(a =~= b);
    } else if a.len() == 0 || b.len() == 0 {
    } else if a[0] == b[0] {
        if a.drop_first() == b.drop_first() {
            assert(a =~= seq![a[0]] + a.drop_first());
            assert(b =~= seq![b[0]] + b.drop_first());
        } else {
            lemma_lex_connected(a.drop_first(), b.drop_first());
        }
    }
}

/// No byte string is lexicographically below itself.
proof fn lemma_lex_irreflexive(a: Seq<u8>)
    ensures
        !lex_lt(a, a),
    decreases a.len(),
{
    if a.len() > 0 {
        lemma_lex_irreflexive(a.drop_first());
    }
}

/// When the first `k` bytes agree, the order is decided by the rest.
proof fn lemma_lex_common_prefix(a: Seq<u8>, b: Seq<u8>, k: int)
    requires
        0 <= k <= a.len(),
        k <= b.len(),
        forall|i: int| 0 <= i < k ==> a[i] == b[i],
    ensures
        lex_lt(a, b) == lex_lt(a.skip(k), b.skip(k)),
    decreases k,
{
    if k > 0 {
        assert(a.len() > 0 && b.len() > 0 && a[0] == b[0]);
        assert(forall|i: int| 0 <= i < a.drop_first().len() ==> a.drop_first()[i] == a[i + 1]);
        assert(forall|i: int| 0 <= i < b.drop_first().len() ==> b.drop_first()[i] == b[i + 1]);
        lemma_lex_common_prefix(a.drop_first(), b.drop_first(), k - 1);
        assert(a.drop_first().skip(k - 1) =~= a.skip(k));
        assert(b.drop_first().skip(k - 1) =~= b.skip(k));
    } else {
        assert(a.skip(0) =~= a);
        assert(b.skip(0) =~= b);
    }
}

impl TotalOrder for Text {
    open spec fn lt(a: Seq<u8>, b: Seq<u8>) -> bool {
        lex_lt(a, b)
    }

    proof fn lt_transitive(a: Seq<u8>, b: Seq<u8>, c: Seq<u8>) {
        lemma_lex_transitive(a, b, c);
    }

    proof fn lt_connected(a: Seq<u8>, b: Seq<u8>) {
        lemma_lex_connected(a, b);
    }

    proof fn lt_irreflexive(a: Seq<u8>) {
        lemma_lex_irreflexive(a);
    }

    fn cmp_with(&self, other: &Self) -> (c: Cmp) {
        let a = &self.bytes;
        let b = &other.bytes;
        let mut i: usize = 0;
        loop
            invariant
                a@ == self@,
                b@ == other@,
                i <= a@.len(),
                i <= b@.len(),
                forall|k: int| 0 <= k < i ==> a@[k] == b@[k],
            decreases a@.len() - i,
        {
            if i == a.len() && i == b.len() {
                proof {
                    assert(self@ =~= other@);
                }
                return Cmp::Equal;
            }
            if i == a.len() {
                proof {
                    lemma_lex_common_prefix(a@, b@, i as int);
                    assert(a@.skip(i as int).len() == 0 && b@.skip(i as int).len() > 0);
                }
                return Cmp::Less;
            }
            if i == b.len() {
                proof {
                    lemma_lex_common_prefix(b@, a@, i as int);
                    assert(b@.skip(i as int).len() == 0 && a@.skip(i as int).len() > 0);
                }
                return Cmp::Greater;
            }
            let x = a[i];
            let y = b[i];
            if x < y {
                proof {
                    lemma_lex_common_prefix(a@, b@, i as int);
                    assert(a@.skip(i as int)[0] == a@[i as int]);
                    assert(b@.skip(i as int)[0] == b@[i as int]);
                }
                return Cmp::Less;
            }
            if y < x {
                proof {
                    lemma_lex_common_prefix(b@, a@, i as int);
                    assert(a@.skip(i as int)[0] == a@[i as int]);
                    assert(b@.skip(i as int)[0] == b@[i as int]);
                }
                return Cmp::Greater;
            }
            i = i + 1;
        }
    }

    fn duplicate(&self) -> (r: Self) {
        let mut out: Vec<u8> = Vec::new();
        let mut i: usize = 0;
        while i < self.bytes.len()
            invariant
                i <= self.bytes@.len(),
                out@ == self.bytes@.take(i as int),
            decreases self.bytes@.len() - i,
        {
            out.push(self.bytes[i]);
            proof {
                assert(out@ =~= self.bytes@.take(i + 1));
            }
            i = i + 1;
        }
        proof {
            assert(self.bytes@.take(self.bytes@.len() as int) =~= self.bytes@);
        }
        Text { bytes: out }
    }
}

} // verus!
