//! The debug rendering of an integer set: `{}` when empty, otherwise
//! the elements in ascending order, comma-space separated, in braces.

use vstd::prelude::*;

use crate::set::SortedVectorSet;

verus! {

/// The decimal digits of a non-negative number, most significant first.
pub open spec fn dec_rep(n: nat) -> Seq<u8>
    decreases n,
{
    if n < 10 {
        seq![(48 + n) as u8]
    } else {
        dec_rep(n / 10).push((48 + n % 10) as u8)
    }
}

/// The decimal rendering of a signed number: a minus sign and then the
/// digits of its magnitude.
pub open spec fn render_int(v: int) -> Seq<u8> {
    if v < 0 {
        seq![45u8] + dec_rep((-v) as nat)
    } else {
        dec_rep(v as nat)
    }
}

/// The renderings of a sequence of numbers, comma-space separated.
pub open spec fn render_items(s: Seq<i64>) -> Seq<u8>
    decreases s.len(),
{
    if s.len() == 0 {
        Seq::empty()
    } else if s.len() == 1 {
        render_int(s[0] as int)
    } else {
        render_int(s[0] as int) + seq![44u8, 32u8] + render_items(s.drop_first())
    }
}

/// The full rendering of a set of numbers, in braces.
pub open spec fn render_set(s: Seq<i64>) -> Seq<u8> {
    seq![123u8] + render_items(s) + seq![125u8]
}

/// Every byte of a decimal rendering is a printable ASCII character.
proof fn lemma_dec_rep_ascii(n: nat)
    ensures
        forall|i: int| 0 <= i < dec_rep(n).len() ==> 32 <= #[trigger] dec_rep(n)[i] < 127,
        dec_rep(n).len() > 0,
    decreases n,
{
    if n >= 10 {
        lemma_dec_rep_ascii(n / 10);
    }
}

/// Every byte of a rendered set is a printable ASCII character.
proof fn lemma_render_items_ascii(s: Seq<i64>)
    ensures
        forall|i: int| 0 <= i < render_items(s).len() ==> 32 <= #[trigger] render_items(s)[i] < 127,
    decreases s.len(),
{
    if s.len() > 0 {
        let head = render_int(s[0] as int);
        lemma_dec_rep_ascii(
            if s[0] < 0 {
                (-(s[0] as int)) as nat
            } else {
                s[0] as nat
            },
        );
        assert forall|i: int| 0 <= i < head.len() implies 32 <= #[trigger] head[i] < 127 by {
            if s[0] < 0 && i > 0 {
                assert(head[i] == dec_rep((-(s[0] as int)) as nat)[i - 1]);
            }
        }
        if s.len() > 1 {
            lemma_render_items_ascii(s.drop_first());
            let rest = render_items(s.drop_first());
            assert forall|i: int|
                0 <= i < render_items(s).len() implies 32 <= #[trigger] render_items(s)[i]
                < 127 by {
                if i < head.len() {
                    assert(render_items(s)[i] == head[i]);
                } else if i < head.len() + 2 {
                    assert((seq![44u8, 32u8])[i - head.len()] == 44 || (seq![44u8, 32u8])[i
                        - head.len()] == 32);
                } else {
                    assert(render_items(s)[i] == rest[i - head.len() - 2]);
                }
            }
        }
    }
}

/// Appends the decimal digits of `n`.
fn push_digits(out: &mut Vec<u8>, n: u64)
    ensures
        final(out)@ == old(out)@ + dec_rep(n as nat),
    decreases n,
{
    if n < 10 {
        out.push(48 + n as u8);
        proof {
            assert(final(out)@ =~= old(out)@ + dec_rep(n as nat));
        }
    } else {
        push_digits(out, n / 10);
        out.push(48 + (n % 10) as u8);
        proof {
            assert(final(out)@ =~= old(out)@ + dec_rep(n as nat));
        }
    }
}

/// Appends the decimal rendering of `v`, sign included.
fn push_int(out: &mut Vec<u8>, v: i64)
    ensures
        final(out)@ == old(out)@ + render_int(v as int),
{
    if v < 0 {
        out.push(45);
        // The magnitude of the most negative value still fits unsigned.
        let magnitude: u64 = if v == i64::MIN {
            9223372036854775808u64
        } else {
            (-v) as u64
        };
        proof {
            assert(magnitude as nat == (-(v as int)) as nat);
        }
        push_digits(out, magnitude);
        proof {
            assert(final(out)@ =~= old(out)@ + render_int(v as int));
        }
    } else {
        push_digits(out, v as u64);
    }
}

/// Appending one more rendered item extends the comma-separated list.
proof fn lemma_render_items_snoc(s: Seq<i64>, x: i64)
    requires
        s.len() > 0,
    ensures
        render_items(s.push(x)) == render_items(s) + seq![44u8, 32u8] + render_int(x as int),
    decreases s.len(),
{
    let t = s.push(x);
    assert(t[0] == s[0]);
    if s.len() == 1 {
        assert(t.drop_first() =~= seq![x]);
        assert(render_items(t.drop_first()) == render_int(x as int));
        assert(render_items(t) =~= render_items(s) + seq![44u8, 32u8] + render_int(x as int));
    } else {
        assert(t.drop_first() =~= s.drop_first().push(x));
        lemma_render_items_snoc(s.drop_first(), x);
        assert(render_items(t) =~= render_items(s) + seq![44u8, 32u8] + render_int(x as int));
    }
}

/// Relies on `String::from_utf8`: a buffer of ASCII bytes is valid
/// UTF-8 and decodes to the characters with the same code points.
#[verifier::external_body]
fn ascii_to_string(bytes: &Vec<u8>) -> (r: String)
    requires
        forall|i: int| 0 <= i < bytes@.len() ==> #[trigger] bytes@[i] < 128,
    ensures
        r@.len() == bytes@.len(),
        forall|i: int| 0 <= i < bytes@.len() ==> r@[i] == #[trigger] bytes@[i] as char,
{
    String::from_utf8(bytes.clone()).unwrap_or_default()
}

impl SortedVectorSet<i64> {
    /// Renders the set for debugging: `{}` when empty, else the
    /// elements in ascending order, comma-space separated, in braces.
    pub fn debug_string(&self) -> (r: String)
        ensures
            r@.len() == render_set(self@).len(),
            forall|i: int|
                0 <= i < r@.len() ==> r@[i] == #[trigger] render_set(self@)[i] as char,
    {
        let elems = self.as_slice();
        let mut out: Vec<u8> = Vec::new();
        out.push(123);
        proof {
            assert(out@ =~= seq![123u8] + render_items(self@.take(0)));
        }
        let mut i: usize = 0;
        while i < elems.len()
            invariant
                crate::sorted::views_of(elems@) == self@,
                i <= self@.len(),
                out@ == seq![123u8] + render_items(self@.take(i as int)),
            decreases self@.len() - i,
        {
            if i > 0 {
                out.push(44);
                out.push(32);
            }
            let ghost prefix = self@.take(i as int);
            push_int(&mut out, elems[i]);
            proof {
                crate::sorted::lemma_views_index::<i64>(elems@, i as int);
                assert(self@.take(i + 1) =~= prefix.push(self@[i as int]));
                if i == 0 {
                    assert(render_items(self@.take(1)) == render_int(self@[0] as int));
                    assert(out@ =~= seq![123u8] + render_items(self@.take(i + 1)));
                } else {
                    lemma_render_items_snoc(prefix, self@[i as int]);
                    assert(out@ =~= seq![123u8] + render_items(self@.take(i + 1)));
                }
            }
            i = i + 1;
        }
        out.push(125);
        proof {
            assert(self@.take(self@.len() as int) =~= self@);
            assert(out@ =~= render_set(self@));
            lemma_render_items_ascii(self@);
            assert forall|k: int| 0 <= k < out@.len() implies #[trigger] out@[k] < 128 by {
                if 0 < k < out@.len() - 1 {
                    assert(out@[k] == render_items(self@)[k - 1]);
                }
            }
        }
        ascii_to_string(&out)
    }
}

} // verus!
