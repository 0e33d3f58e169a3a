//! Text model: joining grapheme sequences, lexicographic token order, and
//! the trusted boundary to Unicode segmentation.

use vstd::prelude::*;
use unicode_segmentation::UnicodeSegmentation;

verus! {

/// The concatenation of a sequence of character sequences.
pub open spec fn join(parts: Seq<Seq<char>>) -> Seq<char>
    decreases parts.len(),
{
    if parts.len() == 0 {
        Seq::empty()
    } else {
        parts.first() + join(parts.drop_first())
    }
}

pub proof fn lemma_join_push(parts: Seq<Seq<char>>, part: Seq<char>)
    ensures
        join(parts.push(part)) == join(parts) + part,
    decreases parts.len(),
{
    if parts.len() == 0 {
        assert(parts.push(part).drop_first() =~= Seq::<Seq<char>>::empty());
        assert(parts.push(part).first() == part);
        assert(join(parts.push(part)) == part + join(Seq::<Seq<char>>::empty()));
        assert(join(parts.push(part)) =~= join(parts) + part);
    } else {
        assert(parts.push(part).drop_first() =~= parts.drop_first().push(part));
        lemma_join_push(parts.drop_first(), part);
        assert(join(parts.push(part)) =~= join(parts) + part);
    }
}

/// Lexicographic order on character sequences, by scalar value; the empty
/// sequence sorts first.
pub open spec fn lex_leq(a: Seq<char>, b: Seq<char>) -> bool
    decreases a.len(),
{
    if a.len() == 0 {
        true
    } else if b.len() == 0 {
        false
    } else if a.first() != b.first() {
        (a.first() as u32) < (b.first() as u32)
    } else {
        lex_leq(a.drop_first(), b.drop_first())
    }
}

/// The words of a text under Unicode (UAX#29) word segmentation: the
/// substrings between word boundaries that contain an alphanumeric character.
pub uninterp spec fn unicode_words_of(text: Seq<char>) -> Seq<Seq<char>>;

/// The extended grapheme clusters of a text under UAX#29.
pub uninterp spec fn graphemes_of(text: Seq<char>) -> Seq<Seq<char>>;

/// Whether a character can stand inside a word: Unicode alphabetic, or a
/// number.
pub uninterp spec fn is_word_char(c: char) -> bool;

/// A text ends inside a word when its last character is a word character.
pub open spec fn ends_in_word_char(text: Seq<char>) -> bool {
    text.len() > 0 && is_word_char(text.last())
}

/// Relies on unicode_segmentation's `UnicodeSegmentation::unicode_words`:
/// the UAX#29 words of the text, a function of the characters alone.
#[verifier::external_body]
pub(crate) fn unicode_words_vec(text: &str) -> (r: Vec<String>)
    ensures
        r.deep_view() == unicode_words_of(text@),
{
    text.unicode_words().map(|w| w.to_owned()).collect()
}

/// Relies on unicode_segmentation's `UnicodeSegmentation::graphemes` (in its
/// extended form): the grapheme clusters of the text, a function of the
/// characters alone; per UAX#29 the clusters partition the text, so their
/// concatenation is the text itself.
#[verifier::external_body]
pub(crate) fn graphemes_vec(text: &str) -> (r: Vec<String>)
    ensures
        r.deep_view() == graphemes_of(text@),
        join(r.deep_view()) == text@,
{
    text.graphemes(true).map(|g| g.to_owned()).collect()
}

/// Relies on `char::is_alphanumeric`: whether the character is Unicode
/// alphabetic or a number, a property of the character alone.
#[verifier::external_body]
pub(crate) fn char_is_word(c: char) -> (r: bool)
    ensures
        r == is_word_char(c),
{
    c.is_alphanumeric()
}

/// Whether the text's last character is a word character.
pub(crate) fn text_ends_in_word_char(text: &str) -> (r: bool)
    ensures
        r == ends_in_word_char(text@),
{
    let n = text.unicode_len();
    if n == 0 {
        false
    } else {
        char_is_word(text.get_char(n - 1))
    }
}

/// Lexicographic comparison of two strings, matching `lex_leq` on their
/// characters.
pub fn str_lex_leq(a: &str, b: &str) -> (r: bool)
    ensures
        r == lex_leq(a@, b@),
{
    let an = a.unicode_len();
    let bn = b.unicode_len();
    let mut i: usize = 0;
    proof {
        assert(a@.skip(0) =~= a@);
        assert(b@.skip(0) =~= b@);
    }
    loop
        invariant
            i <= an,
            i <= bn,
            an == a@.len(),
            bn == b@.len(),
            lex_leq(a@, b@) == lex_leq(a@.skip(i as int), b@.skip(i as int)),
        decreases an - i,
    {
        if i >= an {
            proof {
                assert(a@.skip(i as int).len() == 0);
            }
            return true;
        }
        if i >= bn {
            proof {
                assert(b@.skip(i as int).len() == 0);
                assert(a@.skip(i as int).len() > 0);
            }
            return false;
        }
        let ca = a.get_char(i);
        let cb = b.get_char(i);
        proof {
            assert(a@.skip(i as int).first() == a@[i as int]);
            assert(b@.skip(i as int).first() == b@[i as int]);
        }
        if ca != cb {
            return (ca as u32) < (cb as u32);
        }
        proof {
            assert(a@.skip(i as int).drop_first() =~= a@.skip(i as int + 1));
            assert(b@.skip(i as int).drop_first() =~= b@.skip(i as int + 1));
        }
        i = i + 1;
    }
}

/// Whether `p`'s characters are a prefix of `s`'s.
pub fn str_is_prefix(p: &str, s: &str) -> (r: bool)
    ensures
        r == p@.is_prefix_of(s@),
{
    let pn = p.unicode_len();
    let sn = s.unicode_len();
    if pn > sn {
        return false;
    }
    for i in 0..pn
        invariant
            pn <= sn,
            pn == p@.len(),
            sn == s@.len(),
            forall|j: int| 0 <= j < i ==> p@[j] == s@[j],
    {
        if p.get_char(i) != s.get_char(i) {
            assert(!p@.is_prefix_of(s@)) by {
                assert(p@[i as int] != s@.subrange(0, p@.len() as int)[i as int]);
            }
            return false;
        }
    }
    proof {
        assert(p@ =~= s@.subrange(0, p@.len() as int));
    }
    true
}

} // verus!
