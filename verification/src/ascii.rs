//! ASCII constants and byte-level helpers shared by the request parser and
//! the response serializer: substring search, whitespace trimming, case
//! folding and decimal numerals.

use vstd::prelude::*;

verus! {

/// Carriage return.
pub const CR: u8 = 13;

/// Line feed.
pub const LF: u8 = 10;

/// Space.
pub const SP: u8 = 32;

/// Colon.
pub const COLON: u8 = 58;

/// Length of a CRLF sequence.
pub const CRLF_LEN: usize = 2;

/// The two-byte CRLF line terminator.
pub open spec fn crlf() -> Seq<u8> {
    seq![CR, LF]
}

/// The four-byte CRLF CRLF header-block terminator.
pub open spec fn crlfcrlf() -> Seq<u8> {
    seq![CR, LF, CR, LF]
}

/// The sequence `pat` occurs in `s` starting at position `i`.
pub open spec fn occurs_at(s: Seq<u8>, pat: Seq<u8>, i: int) -> bool {
    0 <= i && i + pat.len() <= s.len() && s.subrange(i, i + pat.len() as int) == pat
}

/// Position of the first occurrence of `pat` in `s`, if any.
pub open spec fn find_first(s: Seq<u8>, pat: Seq<u8>) -> Option<int>
    decreases s.len(),
{
    if s.len() < pat.len() {
        None
    } else if s.subrange(0, pat.len() as int) == pat {
        Some(0)
    } else if s.len() == 0 {
        // Only reachable when `pat` is empty and differs from the empty
        // prefix, which cannot happen; kept so the recursion is well formed.
        None
    } else {
        match find_first(s.drop_first(), pat) {
            None => None,
            Some(i) => Some(i + 1),
        }
    }
}

/// `find_first` returns the least position at which `pat` occurs.
pub proof fn lemma_find_first(s: Seq<u8>, pat: Seq<u8>)
    ensures
        match find_first(s, pat) {
            Some(k) => occurs_at(s, pat, k) && forall|j: int| 0 <= j < k ==> !occurs_at(s, pat, j),
            None => forall|j: int| !occurs_at(s, pat, j),
        },
    decreases s.len(),
{
    if s.len() < pat.len() {
        assert(forall|j: int| !occurs_at(s, pat, j));
    } else if s.subrange(0, pat.len() as int) == pat {
        assert(occurs_at(s, pat, 0));
    } else if s.len() == 0 {
        assert(pat.len() == 0);
        assert(s.subrange(0, 0) =~= pat);
    } else {
        let t = s.drop_first();
        lemma_find_first(t, pat);
        assert forall|j: int| 0 <= j implies occurs_at(s, pat, j + 1) == occurs_at(t, pat, j) by {
            if 0 <= j && j + pat.len() <= t.len() {
                assert(s.subrange(j + 1, j + 1 + pat.len() as int) =~= t.subrange(
                    j,
                    j + pat.len() as int,
                ));
            }
        }
        match find_first(t, pat) {
            None => {
                assert forall|j: int| !occurs_at(s, pat, j) by {
                    if 1 <= j {
                        assert(!occurs_at(t, pat, j - 1));
                    }
                }
            },
            Some(i) => {
                assert(occurs_at(s, pat, i + 1));
                assert forall|j: int| 0 <= j < i + 1 implies !occurs_at(s, pat, j) by {
                    if 1 <= j {
                        assert(!occurs_at(t, pat, j - 1));
                    }
                }
            },
        }
    }
}

/// The least position at which `pat` occurs determines `find_first`.
pub proof fn lemma_find_first_is(s: Seq<u8>, pat: Seq<u8>, k: int)
    requires
        occurs_at(s, pat, k),
        forall|j: int| 0 <= j < k ==> !occurs_at(s, pat, j),
    ensures
        find_first(s, pat) == Some(k),
{
    lemma_find_first(s, pat);
    match find_first(s, pat) {
        Some(i) => {
            if i < k {
                assert(!occurs_at(s, pat, i));
            }
            if k < i {
                assert(!occurs_at(s, pat, k));
            }
        },
        None => {
            assert(!occurs_at(s, pat, k));
        },
    }
}

/// Appending bytes does not change the position of an occurrence that was
/// already found.
pub proof fn lemma_find_first_extend(s: Seq<u8>, ext: Seq<u8>, pat: Seq<u8>)
    requires
        find_first(s, pat) is Some,
    ensures
        find_first(s + ext, pat) == find_first(s, pat),
{
    lemma_find_first(s, pat);
    let k = find_first(s, pat)->Some_0;
    assert(occurs_at(s + ext, pat, k)) by {
        assert((s + ext).subrange(k, k + pat.len() as int) =~= s.subrange(
            k,
            k + pat.len() as int,
        ));
    }
    assert forall|j: int| 0 <= j < k implies !occurs_at(s + ext, pat, j) by {
        assert(!occurs_at(s, pat, j));
        if j + pat.len() <= s.len() {
            assert((s + ext).subrange(j, j + pat.len() as int) =~= s.subrange(
                j,
                j + pat.len() as int,
            ));
        }
    }
    lemma_find_first_is(s + ext, pat, k);
}

/// Compares two byte slices for equality.
pub fn bytes_eq(a: &[u8], b: &[u8]) -> (r: bool)
    ensures
        r == (a@ == b@),
{
    if a.len() != b.len() {
        assert(a@.len() != b@.len());
        return false;
    }
    let mut i: usize = 0;
    while i < a.len()
        invariant
            0 <= i <= a@.len(),
            a@.len() == b@.len(),
            forall|j: int| 0 <= j < i ==> a@[j] == b@[j],
        decreases a@.len() - i,
    {
        if a[i] != b[i] {
            return false;
        }
        i = i + 1;
    }
    assert(a@ =~= b@);
    true
}

/// Finds the first occurrence of `sequence` in the `bytes` slice.
///
/// Returns the starting position of the `sequence` in `bytes` or `None` if
/// the `sequence` is not found.
pub fn find(bytes: &[u8], sequence: &[u8]) -> (r: Option<usize>)
    requires
        sequence@.len() >= 1,
    ensures
        match r {
            Some(i) => find_first(bytes@, sequence@) == Some(i as int),
            None => find_first(bytes@, sequence@) is None,
        },
{
    if bytes.len() < sequence.len() {
        proof {
            lemma_find_first(bytes@, sequence@);
            if find_first(bytes@, sequence@) is Some {
                assert(occurs_at(bytes@, sequence@, find_first(bytes@, sequence@)->Some_0));
            }
        }
        return None;
    }
    let last_start: usize = bytes.len() - sequence.len();
    let mut i: usize = 0;
    while i <= last_start
        invariant
            0 <= i <= last_start + 1,
            last_start == bytes@.len() - sequence@.len(),
            last_start + sequence@.len() <= usize::MAX,
            sequence@.len() >= 1,
            forall|j: int| 0 <= j < i ==> !occurs_at(bytes@, sequence@, j),
        decreases last_start + 1 - i,
    {
        let window = vstd::slice::slice_subrange(bytes, i, i + sequence.len());
        if bytes_eq(window, sequence) {
            proof {
                assert(occurs_at(bytes@, sequence@, i as int));
                lemma_find_first_is(bytes@, sequence@, i as int);
            }
            return Some(i);
        }
        assert(!occurs_at(bytes@, sequence@, i as int));
        i = i + 1;
    }
    proof {
        assert forall|j: int| !occurs_at(bytes@, sequence@, j) by {
            if 0 <= j < i {
                assert(!occurs_at(bytes@, sequence@, j));
            }
        }
        lemma_find_first(bytes@, sequence@);
        if find_first(bytes@, sequence@) is Some {
            assert(occurs_at(bytes@, sequence@, find_first(bytes@, sequence@)->Some_0));
        }
    }
    None
}

/// ASCII whitespace, as stripped from header values before they are
/// interpreted.
pub open spec fn is_ws(b: u8) -> bool {
    b == 32 || (9 <= b <= 13)
}

/// `s` with leading and trailing ASCII whitespace removed.
pub open spec fn trim_spec(s: Seq<u8>) -> Seq<u8>
    decreases s.len(),
{
    if s.len() > 0 && is_ws(s[0]) {
        trim_spec(s.drop_first())
    } else if s.len() > 0 && is_ws(s.last()) {
        trim_spec(s.drop_last())
    } else {
        s
    }
}

/// Whether `b` is ASCII whitespace.
pub fn is_ws_byte(b: u8) -> (r: bool)
    ensures
        r == is_ws(b),
{
    b == 32 || (9 <= b && b <= 13)
}

/// Strips leading and trailing ASCII whitespace from a byte slice.
pub fn trim(s: &[u8]) -> (r: &[u8])
    ensures
        r@ == trim_spec(s@),
{
    let mut start: usize = 0;
    let mut end: usize = s.len();
    assert(s@.subrange(0, s@.len() as int) =~= s@);
    while start < end && is_ws_byte(s[start])
        invariant
            0 <= start <= end <= s@.len(),
            trim_spec(s@) == trim_spec(s@.subrange(start as int, end as int)),
        decreases end - start,
    {
        proof {
            let cur = s@.subrange(start as int, end as int);
            assert(cur.drop_first() =~= s@.subrange(start + 1, end as int));
        }
        start = start + 1;
    }
    while start < end && is_ws_byte(s[end - 1])
        invariant
            0 <= start <= end <= s@.len(),
            trim_spec(s@) == trim_spec(s@.subrange(start as int, end as int)),
            start < end ==> !is_ws(s@[start as int]),
        decreases end - start,
    {
        proof {
            let cur = s@.subrange(start as int, end as int);
            assert(cur.drop_last() =~= s@.subrange(start as int, end - 1));
        }
        end = end - 1;
    }
    let r = vstd::slice::slice_subrange(s, start, end);
    proof {
        let cur = s@.subrange(start as int, end as int);
        if cur.len() > 0 {
            assert(cur[0] == s@[start as int]);
            assert(cur.last() == s@[end - 1]);
        }
        assert(trim_spec(cur) == cur);
    }
    r
}

/// An upper-case ASCII letter folded to lower case; other bytes unchanged.
pub open spec fn lower_byte(b: u8) -> u8 {
    if 65 <= b <= 90 {
        (b + 32) as u8
    } else {
        b
    }
}

/// A byte sequence folded to lower case.
pub open spec fn lower(s: Seq<u8>) -> Seq<u8> {
    Seq::new(s.len(), |i: int| lower_byte(s[i]))
}

/// Compares two byte slices for equality ignoring ASCII case.
pub fn eq_ignore_case(a: &[u8], b: &[u8]) -> (r: bool)
    ensures
        r == (lower(a@) == lower(b@)),
{
    if a.len() != b.len() {
        assert(lower(a@).len() != lower(b@).len());
        return false;
    }
    let mut i: usize = 0;
    while i < a.len()
        invariant
            0 <= i <= a@.len(),
            a@.len() == b@.len(),
            forall|j: int| 0 <= j < i ==> lower(a@)[j] == lower(b@)[j],
        decreases a@.len() - i,
    {
        let mut x = a[i];
        let mut y = b[i];
        if 65 <= x && x <= 90 {
            x = x + 32;
        }
        if 65 <= y && y <= 90 {
            y = y + 32;
        }
        if x != y {
            assert(lower(a@)[i as int] != lower(b@)[i as int]);
            return false;
        }
        i = i + 1;
    }
    assert(lower(a@) =~= lower(b@));
    true
}

/// A decimal digit.
pub open spec fn is_digit(b: u8) -> bool {
    48 <= b <= 57
}

/// Every byte of `s` is a decimal digit.
pub open spec fn all_digits(s: Seq<u8>) -> bool {
    forall|i: int| 0 <= i < s.len() ==> is_digit(#[trigger] s[i])
}

/// The numeric value of a digit string.
pub open spec fn dec_val(s: Seq<u8>) -> int
    decreases s.len(),
{
    if s.len() == 0 {
        0
    } else {
        dec_val(s.drop_last()) * 10 + (s.last() - 48)
    }
}

/// The canonical decimal numeral of `n`: no sign, no leading zeros.
pub open spec fn dec_bytes(n: int) -> Seq<u8>
    decreases n,
{
    if n < 10 {
        seq![(48 + if n >= 0 { n } else { 0 }) as u8]
    } else {
        dec_bytes(n / 10).push((48 + n % 10) as u8)
    }
}

/// The value that `Content-Length` takes from `s`: an optional plus sign,
/// then decimal digits, denoting a value that fits in a signed 32-bit
/// integer. Negative or malformed values are rejected.
pub open spec fn cl_digits(s: Seq<u8>) -> Seq<u8> {
    if s.len() > 0 && (s[0] == 43 || s[0] == 45) {
        s.drop_first()
    } else {
        s
    }
}

/// Whether the value carries a minus sign.
pub open spec fn cl_negative(s: Seq<u8>) -> bool {
    s.len() > 0 && s[0] == 45
}

pub open spec fn content_length_value(s: Seq<u8>) -> Option<int> {
    if cl_digits(s).len() > 0 && all_digits(cl_digits(s)) && (if cl_negative(s) {
        dec_val(cl_digits(s)) == 0
    } else {
        dec_val(cl_digits(s)) <= 0x7fff_ffff
    }) {
        Some(dec_val(cl_digits(s)))
    } else {
        None
    }
}

/// A parsed content length is never negative.
pub proof fn lemma_content_length_value_nonneg(s: Seq<u8>)
    ensures
        content_length_value(s) is Some ==> content_length_value(s)->Some_0 >= 0,
{
    if content_length_value(s) is Some {
        lemma_dec_val_nonneg(cl_digits(s));
    }
}

/// The value of a digit string only grows when digits are appended.
proof fn lemma_dec_val_bound(s: Seq<u8>, i: int)
    requires
        0 <= i <= s.len(),
        all_digits(s),
    ensures
        dec_val(s.subrange(0, i)) <= dec_val(s),
        dec_val(s) >= 0,
    decreases s.len() - i,
{
    if i == s.len() {
        assert(s.subrange(0, i) =~= s);
        lemma_dec_val_nonneg(s);
    } else {
        let t = s.subrange(0, i + 1);
        assert(t.drop_last() =~= s.subrange(0, i));
        lemma_dec_val_nonneg(s.subrange(0, i));
        assert(dec_val(s.subrange(0, i)) <= dec_val(t));
        lemma_dec_val_bound(s, i + 1);
    }
}

proof fn lemma_dec_val_nonneg(s: Seq<u8>)
    requires
        all_digits(s),
    ensures
        dec_val(s) >= 0,
    decreases s.len(),
{
    if s.len() > 0 {
        assert(all_digits(s.drop_last())) by {
            assert(forall|i: int|
                0 <= i < s.len() - 1 ==> s.drop_last()[i] == #[trigger] s[i]);
        }
        lemma_dec_val_nonneg(s.drop_last());
    }
}

/// Parses a digit string into a non-negative 32-bit value, exactly when
/// `content_length_value` accepts it.
pub fn parse_content_length(s: &[u8]) -> (r: Option<i32>)
    ensures
        match r {
            Some(v) => content_length_value(s@) == Some(v as int) && v >= 0,
            None => content_length_value(s@) is None,
        },
{
    let mut start: usize = 0;
    let mut negative = false;
    if s.len() > 0 && s[0] == 43 {
        start = 1;
    }
    if s.len() > 0 && s[0] == 45 {
        start = 1;
        negative = true;
    }
    let ghost digits = cl_digits(s@);
    assert(negative == cl_negative(s@));
    assert(digits =~= s@.subrange(start as int, s@.len() as int));
    if start == s.len() {
        assert(digits.len() == 0);
        proof {
            lemma_content_length_none(s@);
        }
        return None;
    }
    let mut acc: u64 = 0;
    let mut i: usize = start;
    while i < s.len()
        invariant
            start <= i <= s@.len(),
            digits == cl_digits(s@),
            negative == cl_negative(s@),
            digits =~= s@.subrange(start as int, s@.len() as int),
            acc == dec_val(s@.subrange(start as int, i as int)),
            acc <= 0x7fff_ffff,
            all_digits(s@.subrange(start as int, i as int)),
        decreases s@.len() - i,
    {
        let b = s[i];
        if b < 48 || b > 57 {
            proof {
                assert(digits[i - start] == s@[i as int]);
                assert(!is_digit(digits[i - start]));
                assert(!all_digits(digits));
                lemma_content_length_none(s@);
            }
            return None;
        }
        proof {
            let pre = s@.subrange(start as int, i as int);
            let post = s@.subrange(start as int, i + 1);
            assert(post.drop_last() =~= pre);
            assert(post.last() == b);
        }
        let next: u64 = acc * 10 + (b - 48) as u64;
        if next > 0x7fff_ffff {
            proof {
                let post = s@.subrange(start as int, i + 1);
                assert(dec_val(post) == next);
                if all_digits(digits) {
                    assert(post =~= digits.subrange(0, i + 1 - start));
                    lemma_dec_val_bound(digits, i + 1 - start);
                    assert(dec_val(digits) >= next);
                }
                lemma_content_length_none(s@);
            }
            return None;
        }
        acc = next;
        i = i + 1;
    }
    assert(digits =~= s@.subrange(start as int, i as int));
    if negative && acc != 0 {
        // A minus sign is accepted only on zero: the field is at least 0.
        proof {
            lemma_content_length_none(s@);
        }
        return None;
    }
    proof {
        lemma_content_length_some(s@);
    }
    Some(acc as i32)
}

proof fn lemma_content_length_none(s: Seq<u8>)
    requires
        !(cl_digits(s).len() > 0 && all_digits(cl_digits(s)) && (if cl_negative(s) {
            dec_val(cl_digits(s)) == 0
        } else {
            dec_val(cl_digits(s)) <= 0x7fff_ffff
        })),
    ensures
        content_length_value(s) is None,
{
}

proof fn lemma_content_length_some(s: Seq<u8>)
    requires
        cl_digits(s).len() > 0,
        all_digits(cl_digits(s)),
        cl_negative(s) ==> dec_val(cl_digits(s)) == 0,
        dec_val(cl_digits(s)) <= 0x7fff_ffff,
    ensures
        content_length_value(s) == Some(dec_val(cl_digits(s))),
{
}

/// Writes the decimal numeral of `n` onto the end of `out`.
pub fn push_dec(n: u32, out: &mut Vec<u8>)
    ensures
        final(out)@ == old(out)@ + dec_bytes(n as int),
    decreases n,
{
    if n < 10 {
        out.push(48 + n as u8);
        assert(out@ =~= old(out)@ + dec_bytes(n as int));
    } else {
        push_dec(n / 10, out);
        out.push(48 + (n % 10) as u8);
        assert(out@ =~= old(out)@ + dec_bytes(n as int));
    }
}

/// The byte sequence that a string with characters `s` holds: its UTF-8
/// encoding.
pub open spec fn string_bytes(s: Seq<char>) -> Seq<u8> {
    vstd::utf8::encode_utf8(s)
}

/// Every byte of `s` is ASCII.
pub open spec fn all_ascii(s: Seq<u8>) -> bool {
    forall|i: int| 0 <= i < s.len() ==> #[trigger] s[i] < 128
}

/// Relies on `String::from_utf8`: it succeeds exactly on valid UTF-8,
/// and the resulting string's UTF-8 encoding is the input bytes again.
#[verifier::external_body]
pub fn utf8_to_string(v: &[u8]) -> (r: Option<String>)
    ensures
        (r is Some) <==> vstd::utf8::valid_utf8(v@),
        match r {
            Some(s) => string_bytes(s@) == v@,
            None => true,
        },
{
    match String::from_utf8(v.to_vec()) {
        Ok(s) => Some(s),
        Err(_) => None,
    }
}

/// ASCII bytes are valid UTF-8: each is the one-byte encoding of itself.
pub proof fn lemma_ascii_valid_utf8(b: Seq<u8>)
    requires
        all_ascii(b),
    ensures
        vstd::utf8::valid_utf8(b),
{
    assert(vstd::utf8::partial_valid_utf8(b, 0)) by {
        assert(b.subrange(0, 0) =~= Seq::<u8>::empty());
    }
    assert forall|i: int|
        0 <= 0 <= i < b.len() <= b.len() implies #[trigger] vstd::utf8::is_leading_byte_width_1(
        b[i],
    ) by {
        assert(b[i] < 128);
    }
    vstd::utf8::partial_valid_utf8_extend_ascii_block(b, 0, b.len() as int);
    assert(b.subrange(0, b.len() as int) =~= b);
}

/// A string's UTF-8 encoding holds at most four bytes per character.
pub proof fn lemma_string_bytes_len(s: Seq<char>)
    ensures
        string_bytes(s).len() <= 4 * s.len(),
    decreases s.len(),
{
    if s.len() > 0 {
        lemma_string_bytes_len(s.drop_first());
        assert(vstd::utf8::encode_scalar(s[0] as u32).len() <= 4);
    }
}

/// The decimal numeral of a positive 32-bit value parses back to the value.
pub proof fn lemma_dec_round_trip(n: int)
    requires
        0 <= n <= 0x7fff_ffff,
    ensures
        all_digits(dec_bytes(n)),
        dec_val(dec_bytes(n)) == n,
        dec_bytes(n).len() >= 1,
        dec_bytes(n)[0] != 43 && dec_bytes(n)[0] != 45,
        content_length_value(dec_bytes(n)) == Some(n),
    decreases n,
{
    if n < 10 {
        let d = dec_bytes(n);
        assert(d =~= seq![(48 + n) as u8]);
        assert(d.drop_last() =~= Seq::<u8>::empty());
        assert(dec_val(d.drop_last()) == 0);
        assert(dec_val(d) == n);
    } else {
        lemma_dec_round_trip(n / 10);
        let d = dec_bytes(n);
        assert(d.drop_last() =~= dec_bytes(n / 10));
        assert(d.last() == 48 + n % 10);
        assert(dec_val(d) == dec_val(dec_bytes(n / 10)) * 10 + n % 10);
    }
    let d = dec_bytes(n);
    assert(content_length_value(d) == Some(n)) by {
        assert(d[0] != 43 && d[0] != 45);
    }
}

} // verus!
