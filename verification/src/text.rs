use vstd::prelude::*;
use vstd::string::StrSliceExecFns;
use vstd::utf8::{decode_utf8, valid_utf8};

verus! {

/// What `String::from_utf8_lossy` returns for the given bytes.  Only its
/// behaviour on invalid UTF-8 is left abstract; `chunk_text` pins the rest.
pub uninterp spec fn utf8_lossy_of(b: Seq<u8>) -> Seq<char>;

/// The text read from a payload: for valid UTF-8 exactly the characters the
/// bytes encode, otherwise whatever the lossy conversion produces.
#[verifier::opaque]
pub open spec fn chunk_text(b: Seq<u8>) -> Seq<char> {
    if valid_utf8(b) {
        decode_utf8(b)
    } else {
        utf8_lossy_of(b)
    }
}

/// Relies on `String::from_utf8_lossy`: bytes that are valid UTF-8 convert to
/// the string they encode; invalid sequences are replaced, a result that
/// depends on the bytes alone and that `chunk_text` leaves abstract.
#[verifier::external_body]
pub(crate) fn utf8_lossy(b: &[u8]) -> (r: String)
    ensures
        r@ == chunk_text(b@),
        !valid_utf8(b@) ==> r@ == utf8_lossy_of(b@),
{
    String::from_utf8_lossy(b).into_owned()
}

/// Payload text round trip: encoding text as UTF-8 and reading the bytes
/// back gives the same text.
pub proof fn lemma_chunk_text_round_trip(s: Seq<char>)
    ensures
        chunk_text(vstd::utf8::encode_utf8(s)) == s,
{
    reveal(chunk_text);
    vstd::utf8::encode_utf8_valid_utf8(s);
    vstd::utf8::encode_utf8_decode_utf8(s);
}

pub open spec fn is_dec_digit(c: char) -> bool {
    48 <= c as int <= 57
}

pub open spec fn dec_digit_val(c: char) -> int {
    c as int - 48
}

pub open spec fn all_dec_digits(s: Seq<char>) -> bool {
    forall|i: int| 0 <= i < s.len() ==> is_dec_digit(#[trigger] s[i])
}

/// The value of a string of decimal digits, most significant first.
pub open spec fn dec_digits_val(s: Seq<char>) -> int
    decreases s.len(),
{
    if s.len() == 0 {
        0
    } else {
        dec_digits_val(s.drop_last()) * 10 + dec_digit_val(s.last())
    }
}

/// Exactly which strings `str::parse::<u32>` accepts: an optional leading
/// plus sign, then one or more ASCII digits, with a value that fits in 32
/// bits.
pub open spec fn spec_parse_u32(s: Seq<char>) -> Option<u32> {
    let t = if s.len() > 0 && s[0] == '+' {
        s.drop_first()
    } else {
        s
    };
    if t.len() == 0 || !all_dec_digits(t) || dec_digits_val(t) > u32::MAX {
        None
    } else {
        Some(dec_digits_val(t) as u32)
    }
}

/// A digit string's value is never negative.
pub proof fn lemma_dec_digits_val_nonneg(s: Seq<char>)
    requires
        all_dec_digits(s),
    ensures
        dec_digits_val(s) >= 0,
    decreases s.len(),
{
    if s.len() > 0 {
        assert forall|i: int| 0 <= i < s.drop_last().len() implies is_dec_digit(
            #[trigger] s.drop_last()[i],
        ) by {
            assert(s.drop_last()[i] == s[i]);
        }
        lemma_dec_digits_val_nonneg(s.drop_last());
    }
}

/// Appending digits never decreases the value.
pub proof fn lemma_dec_digits_val_prefix_le(s: Seq<char>, j: int)
    requires
        all_dec_digits(s),
        0 <= j <= s.len(),
    ensures
        dec_digits_val(s.take(j)) <= dec_digits_val(s),
    decreases s.len(),
{
    if j < s.len() {
        assert forall|i: int| 0 <= i < s.drop_last().len() implies is_dec_digit(
            #[trigger] s.drop_last()[i],
        ) by {
            assert(s.drop_last()[i] == s[i]);
        }
        assert(s.take(j) =~= s.drop_last().take(j));
        lemma_dec_digits_val_prefix_le(s.drop_last(), j);
        lemma_dec_digits_val_nonneg(s.drop_last());
        assert(dec_digits_val(s) == dec_digits_val(s.drop_last()) * 10 + dec_digit_val(s.last()));
        assert(dec_digit_val(s.last()) >= 0);
        assert(dec_digits_val(s.drop_last()) * 10 >= dec_digits_val(s.drop_last()));
    } else {
        assert(s.take(j) =~= s);
    }
}

/// Parses an unsigned 32-bit integer exactly as `str::parse::<u32>` would.
pub fn parse_u32(s: &str) -> (r: Option<u32>)
    ensures
        r == spec_parse_u32(s@),
{
    let n = s.unicode_len();
    let mut start: usize = 0;
    if n > 0 && s.get_char(0) == '+' {
        start = 1;
    }
    let ghost t = if start == 1 {
        s@.drop_first()
    } else {
        s@
    };
    proof {
        assert(t.len() == n - start);
    }
    if n == start {
        return None;
    }
    let mut acc: u64 = 0;
    let mut i: usize = start;
    while i < n
        invariant
            start <= i <= n,
            acc <= u32::MAX,
            all_dec_digits(t.take(i - start)),
            acc == dec_digits_val(t.take(i - start)),
        decreases n - i,
    {
        let c = s.get_char(i);
        let d = c as u32;
        proof {
            assert(t[i - start] == s@[i as int]);
        }
        if d < 48 || d > 57 {
            proof {
                assert(!is_dec_digit(t[i - start]));
            }
            return None;
        }
        proof {
            assert(t.take(i - start + 1).drop_last() =~= t.take(i - start));
            assert(t.take(i - start + 1).last() == t[i - start]);
            assert forall|k: int| 0 <= k < i - start + 1 implies is_dec_digit(
                #[trigger] t.take(i - start + 1)[k],
            ) by {
                if k < i - start {
                    assert(t.take(i - start + 1)[k] == t.take(i - start)[k]);
                }
            }
        }
        acc = acc * 10 + ((d - 48) as u64);
        if acc > (u32::MAX as u64) {
            proof {
                if all_dec_digits(t) {
                    lemma_dec_digits_val_prefix_le(t, i - start + 1);
                }
            }
            return None;
        }
        i = i + 1;
    }
    proof {
        assert(t.take(n - start) =~= t);
    }
    Some(acc as u32)
}

/// The index of the first occurrence of `c` in `s`, or -1 when absent.
pub open spec fn find_char(s: Seq<char>, c: char) -> int
    decreases s.len(),
{
    if s.len() == 0 {
        -1
    } else if s[0] == c {
        0
    } else {
        let r = find_char(s.drop_first(), c);
        if r == -1 {
            -1
        } else {
            1 + r
        }
    }
}

/// What `find_char` returns: -1 only when the character is absent, else the
/// first index holding it.
pub proof fn lemma_find_char(s: Seq<char>, c: char)
    ensures
        find_char(s, c) == -1 ==> forall|i: int| 0 <= i < s.len() ==> s[i] != c,
        find_char(s, c) != -1 ==> 0 <= find_char(s, c) < s.len() && s[find_char(s, c)] == c && (
        forall|j: int| 0 <= j < find_char(s, c) ==> s[j] != c),
    decreases s.len(),
{
    if s.len() > 0 && s[0] != c {
        lemma_find_char(s.drop_first(), c);
        let r = find_char(s.drop_first(), c);
        if r == -1 {
            assert forall|i: int| 0 <= i < s.len() implies s[i] != c by {
                if i > 0 {
                    assert(s.drop_first()[i - 1] == s[i]);
                }
            }
        } else {
            assert(s.drop_first()[r] == s[1 + r]);
            assert forall|j: int| 0 <= j < 1 + r implies s[j] != c by {
                if j > 0 {
                    assert(s.drop_first()[j - 1] == s[j]);
                }
            }
        }
    }
}

/// The first index holding the character is what `find_char` returns.
pub proof fn lemma_find_char_at(s: Seq<char>, c: char, k: int)
    requires
        0 <= k < s.len(),
        s[k] == c,
        forall|j: int| 0 <= j < k ==> s[j] != c,
    ensures
        find_char(s, c) == k,
    decreases s.len(),
{
    if k > 0 {
        assert(s[0] != c);
        assert forall|i: int| 0 <= i < s.drop_first().len() implies s.drop_first()[i] == s[i + 1]
        by {}
        lemma_find_char_at(s.drop_first(), c, k - 1);
    }
}

/// Finds the first occurrence of `c`, as `find_char` describes.
pub fn find_char_in(s: &str, c: char) -> (r: Option<usize>)
    ensures
        match r {
            Some(k) => find_char(s@, c) == k,
            None => find_char(s@, c) == -1,
        },
{
    let n = s.unicode_len();
    let mut i: usize = 0;
    while i < n
        invariant
            i <= n,
            forall|j: int| 0 <= j < i ==> s@[j] != c,
        decreases n - i,
    {
        if s.get_char(i) == c {
            proof {
                lemma_find_char_at(s@, c, i as int);
            }
            return Some(i);
        }
        i = i + 1;
    }
    proof {
        lemma_find_char(s@, c);
    }
    None
}

} // verus!
