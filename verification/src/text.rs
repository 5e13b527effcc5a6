//! Tokenization: turning raw text bytes into normalized terms.
//!
//! A token is a maximal run of ASCII alphanumeric bytes, lowercased.
//! A small fixed English stopword list is dropped. The stemming policy
//! is a simple plural stemmer: a trailing `s` is removed from tokens of
//! at least three bytes unless the token ends in a double `s`. The
//! policy is fixed: every embedder fitted by this library uses it.

use vstd::prelude::*;

verus! {

/// Bytes that belong to a token: ASCII digits and letters.
pub open spec fn is_word_byte(b: u8) -> bool {
    (48 <= b && b <= 57) || (65 <= b && b <= 90) || (97 <= b && b <= 122)
}

/// Lowercasing of a single ASCII byte.
pub open spec fn norm_byte_spec(b: u8) -> u8 {
    if 65 <= b && b <= 90 {
        (b + 32) as u8
    } else {
        b
    }
}

/// The stopword list: "a", "an", "and", "or", "of", "to", "in", "on",
/// "is", "the", given here by their lowercase ASCII byte values.
pub open spec fn is_stopword(t: Seq<u8>) -> bool {
    ||| (t.len() == 1 && t[0] == 97)
    ||| (t.len() == 2 && ((t[0] == 97 && t[1] == 110) || (t[0] == 111 && t[1] == 114) || (t[0]
        == 111 && t[1] == 102) || (t[0] == 116 && t[1] == 111) || (t[0] == 105 && t[1] == 110) || (
    t[0] == 111 && t[1] == 110) || (t[0] == 105 && t[1] == 115)))
    ||| (t.len() == 3 && ((t[0] == 116 && t[1] == 104 && t[2] == 101) || (t[0] == 97 && t[1] == 110
        && t[2] == 100)))
}

/// The simple plural stemmer: drop one trailing `s` (byte 115) from a
/// token of three or more bytes, unless it ends in `ss`.
pub open spec fn stem_spec(t: Seq<u8>) -> Seq<u8> {
    if t.len() >= 3 && t[t.len() - 1] == 115 && t[t.len() - 2] != 115 {
        t.drop_last()
    } else {
        t
    }
}

/// A finished token joins the accumulator unless empty or a stopword.
pub open spec fn close_tok(acc: Seq<Seq<u8>>, cur: Seq<u8>) -> Seq<Seq<u8>> {
    if cur.len() > 0 && !is_stopword(cur) {
        acc.push(cur)
    } else {
        acc
    }
}

/// One left-to-right pass over the text: word bytes extend the current
/// token (lowercased), any other byte closes it.
pub open spec fn tok_rec(s: Seq<u8>, cur: Seq<u8>, acc: Seq<Seq<u8>>) -> Seq<Seq<u8>>
    decreases s.len(),
{
    if s.len() == 0 {
        close_tok(acc, cur)
    } else if is_word_byte(s[0]) {
        tok_rec(s.drop_first(), cur.push(norm_byte_spec(s[0])), acc)
    } else {
        tok_rec(s.drop_first(), Seq::empty(), close_tok(acc, cur))
    }
}

/// The token sequence of a text.
pub open spec fn tokens_spec(s: Seq<u8>) -> Seq<Seq<u8>> {
    tok_rec(s, Seq::empty(), Seq::empty())
}

fn is_word_byte_x(b: u8) -> (r: bool)
    ensures
        r == is_word_byte(b),
{
    (48 <= b && b <= 57) || (65 <= b && b <= 90) || (97 <= b && b <= 122)
}

fn norm_byte(b: u8) -> (r: u8)
    ensures
        r == norm_byte_spec(b),
{
    if 65 <= b && b <= 90 {
        b + 32
    } else {
        b
    }
}

/// Whether a token is on the stopword list.
pub fn is_stopword_tok(t: &Vec<u8>) -> (r: bool)
    ensures
        r == is_stopword(t@),
{
    if t.len() == 1 {
        t[0] == 97
    } else if t.len() == 2 {
        (t[0] == 97 && t[1] == 110) || (t[0] == 111 && t[1] == 114) || (t[0] == 111 && t[1] == 102)
            || (t[0] == 116 && t[1] == 111) || (t[0] == 105 && t[1] == 110) || (t[0] == 111 && t[1]
            == 110) || (t[0] == 105 && t[1] == 115)
    } else if t.len() == 3 {
        (t[0] == 116 && t[1] == 104 && t[2] == 101) || (t[0] == 97 && t[1] == 110 && t[2] == 100)
    } else {
        false
    }
}

/// A fresh copy of a byte string.
pub fn dup_bytes(t: &Vec<u8>) -> (r: Vec<u8>)
    ensures
        r@ == t@,
{
    let mut r: Vec<u8> = Vec::new();
    let mut i: usize = 0;
    while i < t.len()
        invariant
            i <= t@.len(),
            r@ == t@.subrange(0, i as int),
        decreases t@.len() - i,
    {
        r.push(t[i]);
        proof {
            assert(r@ =~= t@.subrange(0, i + 1));
        }
        i += 1;
    }
    proof {
        assert(r@ =~= t@);
    }
    r
}

/// Whether two byte strings hold the same bytes.
pub fn bytes_eq(a: &Vec<u8>, b: &Vec<u8>) -> (r: bool)
    ensures
        r == (a@ == b@),
{
    if a.len() != b.len() {
        proof {
            assert(a@ != b@);
        }
        return false;
    }
    let mut i: usize = 0;
    while i < a.len()
        invariant
            i <= a@.len(),
            a@.len() == b@.len(),
            forall|k: int| 0 <= k < i ==> a@[k] == b@[k],
        decreases a@.len() - i,
    {
        if a[i] != b[i] {
            return false;
        }
        i += 1;
    }
    proof {
        assert(a@ =~= b@);
    }
    true
}

/// The stem of a token, as `stem_spec` gives it.
pub fn stem(t: &Vec<u8>) -> (r: Vec<u8>)
    ensures
        r@ == stem_spec(t@),
{
    if t.len() >= 3 && t[t.len() - 1] == 115 && t[t.len() - 2] != 115 {
        let mut r: Vec<u8> = Vec::new();
        let mut i: usize = 0;
        let end = t.len() - 1;
        while i < end
            invariant
                i <= end,
                end == t@.len() - 1,
                t@.len() >= 3,
                r@ == t@.subrange(0, i as int),
            decreases end - i,
        {
            r.push(t[i]);
            proof {
                assert(r@ =~= t@.subrange(0, i + 1));
            }
            i += 1;
        }
        proof {
            assert(r@ =~= t@.drop_last());
        }
        r
    } else {
        dup_bytes(t)
    }
}

/// The tokens of `text`, in order of appearance.
pub fn tokenize(text: &Vec<u8>) -> (r: Vec<Vec<u8>>)
    ensures
        r.deep_view() == tokens_spec(text@),
{
    let ghost full = text@;
    let mut acc: Vec<Vec<u8>> = Vec::new();
    let mut cur: Vec<u8> = Vec::new();
    let mut i: usize = 0;
    proof {
        assert(acc.deep_view() =~~= Seq::<Seq<u8>>::empty());
        assert(full.skip(0) =~= full);
    }
    while i < text.len()
        invariant
            i <= full.len(),
            text@ == full,
            tokens_spec(full) == tok_rec(full.skip(i as int), cur@, acc.deep_view()),
        decreases full.len() - i,
    {
        let ghost pre_rest = full.skip(i as int);
        let ghost pre_cur = cur@;
        let ghost pre_acc = acc.deep_view();
        let b = text[i];
        proof {
            assert(pre_rest[0] == b);
            assert(pre_rest.drop_first() =~= full.skip(i + 1));
        }
        if is_word_byte_x(b) {
            cur.push(norm_byte(b));
        } else {
            if cur.len() > 0 && !is_stopword_tok(&cur) {
                acc.push(cur);
                proof {
                    assert(acc.deep_view() =~~= pre_acc.push(pre_cur));
                }
            }
            cur = Vec::new();
        }
        i += 1;
    }
    proof {
        assert(full.skip(i as int) =~= Seq::<u8>::empty());
    }
    if cur.len() > 0 && !is_stopword_tok(&cur) {
        let ghost pre_acc = acc.deep_view();
        let ghost pre_cur = cur@;
        acc.push(cur);
        proof {
            assert(acc.deep_view() =~~= pre_acc.push(pre_cur));
        }
    }
    acc
}

} // verus!
