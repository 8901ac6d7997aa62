use vstd::prelude::*;
use vstd::string::*;

verus! {

// ---------------------------------------------------------------------------
// Character classes
// ---------------------------------------------------------------------------

/// The ASCII whitespace characters that the tokenizers here recognise.
pub open spec fn is_ws_char(c: char) -> bool {
    c == ' ' || c == '\t' || c == '\r' || c == '\n'
}

pub open spec fn is_digit_char(c: char) -> bool {
    '0' <= c && c <= '9'
}

pub open spec fn digit_val(c: char) -> int {
    c as int - '0' as int
}

/// The decimal digit character for a value in 0..=9.
pub open spec fn digit_char(d: int) -> char {
    if d == 0 { '0' }
    else if d == 1 { '1' }
    else if d == 2 { '2' }
    else if d == 3 { '3' }
    else if d == 4 { '4' }
    else if d == 5 { '5' }
    else if d == 6 { '6' }
    else if d == 7 { '7' }
    else if d == 8 { '8' }
    else { '9' }
}

pub open spec fn all_digits(s: Seq<char>) -> bool {
    forall|i: int| 0 <= i < s.len() ==> is_digit_char(#[trigger] s[i])
}

proof fn lemma_digit_char_val(d: int)
    requires
        0 <= d <= 9,
    ensures
        is_digit_char(digit_char(d)),
        digit_val(digit_char(d)) == d,
        !is_ws_char(digit_char(d)),
{
}

// ---------------------------------------------------------------------------
// Decimal numerals
// ---------------------------------------------------------------------------

/// The numeric value of a digit string, most significant digit first.
pub open spec fn dec_val(s: Seq<char>) -> int
    decreases s.len(),
{
    if s.len() == 0 {
        0
    } else {
        dec_val(s.drop_last()) * 10 + digit_val(s.last())
    }
}

/// The canonical decimal numeral of a non-negative number.
pub open spec fn dec_chars(n: int) -> Seq<char>
    decreases n,
{
    if n < 10 {
        seq![digit_char(n)]
    } else {
        dec_chars(n / 10).push(digit_char(n % 10))
    }
}

pub proof fn lemma_dec_val_nonneg(s: Seq<char>)
    requires
        all_digits(s),
    ensures
        dec_val(s) >= 0,
    decreases s.len(),
{
    if s.len() > 0 {
        assert(all_digits(s.drop_last())) by {
            assert(forall|i: int| 0 <= i < s.len() - 1 ==> s.drop_last()[i] == #[trigger] s[i]);
        }
        lemma_dec_val_nonneg(s.drop_last());
    }
}

/// The numeral of n is all digits, non-empty, free of whitespace, and
/// evaluates back to n.
pub proof fn lemma_dec_chars_val(n: int)
    requires
        n >= 0,
    ensures
        dec_chars(n).len() >= 1,
        all_digits(dec_chars(n)),
        forall|i: int| 0 <= i < dec_chars(n).len() ==> !is_ws_char(#[trigger] dec_chars(n)[i]),
        dec_val(dec_chars(n)) == n,
    decreases n,
{
    if n < 10 {
        lemma_digit_char_val(n);
        assert(dec_chars(n) =~= seq![digit_char(n)]);
        assert(dec_chars(n).len() == 1);
        assert(dec_chars(n).last() == digit_char(n));
        assert(dec_chars(n).drop_last() =~= Seq::<char>::empty());
        assert(dec_val(Seq::<char>::empty()) == 0);
        assert(dec_val(dec_chars(n)) == dec_val(dec_chars(n).drop_last()) * 10 + digit_val(dec_chars(n).last()));
    } else {
        let q = n / 10;
        let r = n % 10;
        assert(0 <= r <= 9 && q >= 1 && n == q * 10 + r) by (nonlinear_arith)
            requires n >= 10, q == n / 10, r == n % 10;
        lemma_dec_chars_val(q);
        lemma_digit_char_val(r);
        let s = dec_chars(n);
        assert(s =~= dec_chars(q).push(digit_char(r)));
        assert(s.drop_last() =~= dec_chars(q));
        assert(s.last() == digit_char(r));
        assert(dec_val(s) == dec_val(dec_chars(q)) * 10 + digit_val(digit_char(r)));
        assert(forall|i: int| 0 <= i < s.len() - 1 ==> #[trigger] s[i] == dec_chars(q)[i]);
    }
}

/// What `parse_u64` returns: the value of a non-empty all-digit string that
/// fits in a u64, and nothing else.
pub open spec fn parse_u64_spec(s: Seq<char>) -> Option<u64> {
    if s.len() == 0 || !all_digits(s) || dec_val(s) > u64::MAX {
        None
    } else {
        Some(dec_val(s) as u64)
    }
}

proof fn lemma_dec_val_prefix_grows(s: Seq<char>, i: int)
    requires
        all_digits(s),
        0 <= i <= s.len(),
    ensures
        dec_val(s.take(i)) <= dec_val(s),
    decreases s.len() - i,
{
    if i < s.len() {
        lemma_dec_val_prefix_grows(s, i + 1);
        assert(s.take(i + 1).drop_last() =~= s.take(i));
        assert(all_digits(s.take(i))) by {
            assert(forall|j: int| 0 <= j < i ==> s.take(i)[j] == #[trigger] s[j]);
        }
        lemma_dec_val_nonneg(s.take(i));
        assert(s.take(i + 1).last() == s[i]);
        assert(dec_val(s.take(i + 1)) == dec_val(s.take(i)) * 10 + digit_val(s[i]));
        assert(dec_val(s.take(i)) * 10 >= dec_val(s.take(i))) by (nonlinear_arith)
            requires dec_val(s.take(i)) >= 0;
    } else {
        assert(s.take(i) =~= s);
    }
}

/// Parses a decimal numeral; anything but a fitting all-digit string is None.
pub fn parse_u64(s: &str) -> (r: Option<u64>)
    ensures
        r == parse_u64_spec(s@),
{
    let len: usize = s.unicode_len();
    if len == 0 {
        return None;
    }
    let mut val: u64 = 0;
    let mut i: usize = 0;
    while i < len
        invariant
            0 <= i <= len,
            len == s@.len(),
            all_digits(s@.take(i as int)),
            val == dec_val(s@.take(i as int)),
        decreases len - i,
    {
        let c: char = s.get_char(i);
        assert(s@.take(i + 1).drop_last() =~= s@.take(i as int));
        assert(s@.take(i + 1).last() == s@[i as int]);
        if !('0' <= c && c <= '9') {
            assert(!all_digits(s@)) by {
                assert(s@[i as int] == c);
            }
            return None;
        }
        let d: u64 = (c as u32 as u64) - ('0' as u32 as u64);
        assert(d == digit_val(c));
        let next: Option<u64> = match val.checked_mul(10) {
            Some(v) => v.checked_add(d),
            None => None,
        };
        match next {
            Some(v) => {
                val = v;
            },
            None => {
                proof {
                    assert(dec_val(s@.take(i + 1)) == val * 10 + digit_val(c));
                    assert(dec_val(s@.take(i + 1)) > u64::MAX);
                    if all_digits(s@) {
                        lemma_dec_val_prefix_grows(s@, i + 1);
                    }
                }
                return None;
            },
        }
        i = i + 1;
    }
    assert(s@.take(len as int) =~= s@);
    proof {
        lemma_dec_val_nonneg(s@);
    }
    Some(val)
}

/// Relies on String::push: appends the character to the end of the string.
pub assume_specification[ String::push ](s: &mut String, c: char)
    ensures
        final(s)@ == old(s)@.push(c),
;

fn digit_to_char(d: u64) -> (c: char)
    requires
        d <= 9,
    ensures
        c == digit_char(d as int),
{
    match d {
        0 => '0',
        1 => '1',
        2 => '2',
        3 => '3',
        4 => '4',
        5 => '5',
        6 => '6',
        7 => '7',
        8 => '8',
        _ => '9',
    }
}

/// Prints a number as its canonical decimal numeral.
pub fn print_u64(n: u64) -> (s: String)
    ensures
        s@ == dec_chars(n as int),
    decreases n,
{
    if n < 10 {
        let mut s: String = String::new();
        s.push(digit_to_char(n));
        assert(s@ =~= seq![digit_char(n as int)]);
        s
    } else {
        let mut s: String = print_u64(n / 10);
        s.push(digit_to_char(n % 10));
        s
    }
}

// ---------------------------------------------------------------------------
// Hexadecimal numerals
// ---------------------------------------------------------------------------

pub open spec fn is_hex_digit_char(c: char) -> bool {
    ('0' <= c && c <= '9') || ('a' <= c && c <= 'f') || ('A' <= c && c <= 'F')
}

pub open spec fn hex_digit_val(c: char) -> int {
    if '0' <= c && c <= '9' {
        c as int - '0' as int
    } else if 'a' <= c && c <= 'f' {
        c as int - 'a' as int + 10
    } else {
        c as int - 'A' as int + 10
    }
}

pub open spec fn all_hex_digits(s: Seq<char>) -> bool {
    forall|i: int| 0 <= i < s.len() ==> is_hex_digit_char(#[trigger] s[i])
}

pub open spec fn hex_val(s: Seq<char>) -> int
    decreases s.len(),
{
    if s.len() == 0 {
        0
    } else {
        hex_val(s.drop_last()) * 16 + hex_digit_val(s.last())
    }
}

/// What parsing a hexadecimal u32 accepts, as u32::from_str_radix does with
/// radix 16: an optional leading plus sign, then at least one hex digit,
/// with a value that fits.
pub open spec fn parse_hex_u32_spec(s: Seq<char>) -> Option<u32> {
    let t = if s.len() > 0 && s[0] == '+' { s.skip(1) } else { s };
    if t.len() == 0 || !all_hex_digits(t) || hex_val(t) > u32::MAX {
        None
    } else {
        Some(hex_val(t) as u32)
    }
}

proof fn lemma_hex_val_nonneg(s: Seq<char>)
    requires
        all_hex_digits(s),
    ensures
        hex_val(s) >= 0,
    decreases s.len(),
{
    if s.len() > 0 {
        assert(all_hex_digits(s.drop_last())) by {
            assert(forall|i: int| 0 <= i < s.len() - 1 ==> s.drop_last()[i] == #[trigger] s[i]);
        }
        lemma_hex_val_nonneg(s.drop_last());
        assert(hex_digit_val(s.last()) >= 0);
        assert(hex_val(s.drop_last()) * 16 >= 0) by (nonlinear_arith)
            requires hex_val(s.drop_last()) >= 0;
    }
}

proof fn lemma_hex_val_prefix_grows(s: Seq<char>, i: int)
    requires
        all_hex_digits(s),
        0 <= i <= s.len(),
    ensures
        hex_val(s.take(i)) <= hex_val(s),
    decreases s.len() - i,
{
    if i < s.len() {
        lemma_hex_val_prefix_grows(s, i + 1);
        assert(s.take(i + 1).drop_last() =~= s.take(i));
        assert(all_hex_digits(s.take(i))) by {
            assert(forall|j: int| 0 <= j < i ==> s.take(i)[j] == #[trigger] s[j]);
        }
        lemma_hex_val_nonneg(s.take(i));
        assert(s.take(i + 1).last() == s[i]);
        assert(hex_val(s.take(i + 1)) == hex_val(s.take(i)) * 16 + hex_digit_val(s[i]));
        assert(hex_val(s.take(i)) * 16 >= hex_val(s.take(i))) by (nonlinear_arith)
            requires hex_val(s.take(i)) >= 0;
    } else {
        assert(s.take(i) =~= s);
    }
}

fn is_hex_digit(c: char) -> (r: bool)
    ensures
        r == is_hex_digit_char(c),
{
    ('0' <= c && c <= '9') || ('a' <= c && c <= 'f') || ('A' <= c && c <= 'F')
}

fn hex_digit(c: char) -> (d: u32)
    requires
        is_hex_digit_char(c),
    ensures
        d == hex_digit_val(c),
{
    if '0' <= c && c <= '9' {
        (c as u32) - ('0' as u32)
    } else if 'a' <= c && c <= 'f' {
        (c as u32) - ('a' as u32) + 10
    } else {
        (c as u32) - ('A' as u32) + 10
    }
}

/// Parses a hexadecimal numeral the way u32::from_str_radix(s, 16) does.
pub fn parse_hex_u32(s: &str) -> (r: Option<u32>)
    ensures
        r == parse_hex_u32_spec(s@),
{
    let len: usize = s.unicode_len();
    let start: usize = if len > 0 && s.get_char(0) == '+' { 1 } else { 0 };
    let ghost t = if s@.len() > 0 && s@[0] == '+' { s@.skip(1) } else { s@ };
    assert(t =~= s@.subrange(start as int, len as int));
    if start >= len {
        proof {
            assert(t.len() == len - start);
            assert(t.len() == 0);
            assert(parse_hex_u32_spec(s@) is None);
        }
        return None;
    }
    let mut val: u32 = 0;
    let mut i: usize = start;
    while i < len
        invariant
            start <= i <= len,
            len == s@.len(),
            t == (if s@.len() > 0 && s@[0] == '+' { s@.skip(1) } else { s@ }),
            t == s@.subrange(start as int, len as int),
            all_hex_digits(t.take(i - start)),
            val == hex_val(t.take(i - start)),
        decreases len - i,
    {
        let c: char = s.get_char(i);
        assert(t.take(i - start + 1).drop_last() =~= t.take(i - start));
        assert(t.take(i - start + 1).last() == t[i - start] && t[i - start] == s@[i as int]);
        if !is_hex_digit(c) {
            assert(t[i - start] == s@[i as int]);
            assert(!is_hex_digit_char(t[i - start]));
            assert(!all_hex_digits(t));
            assert(parse_hex_u32_spec(s@) is None);
            return None;
        }
        let d: u32 = hex_digit(c);
        let next: Option<u32> = match val.checked_mul(16) {
            Some(v) => v.checked_add(d),
            None => None,
        };
        match next {
            Some(v) => {
                val = v;
            },
            None => {
                proof {
                    assert(hex_val(t.take(i - start + 1)) == val * 16 + hex_digit_val(c));
                    assert(hex_val(t.take(i - start + 1)) > u32::MAX);
                    if all_hex_digits(t) {
                        lemma_hex_val_prefix_grows(t, i - start + 1);
                    }
                    assert(parse_hex_u32_spec(s@) is None);
                }
                return None;
            },
        }
        i = i + 1;
    }
    assert(t.take(len - start) =~= t);
    proof {
        lemma_hex_val_nonneg(t);
    }
    Some(val)
}

// ---------------------------------------------------------------------------
// String comparison
// ---------------------------------------------------------------------------

/// Compares two strings character by character.
pub fn str_eq(a: &str, b: &str) -> (r: bool)
    ensures
        r == (a@ == b@),
{
    let la: usize = a.unicode_len();
    let lb: usize = b.unicode_len();
    if la != lb {
        return false;
    }
    let mut i: usize = 0;
    while i < la
        invariant
            0 <= i <= la,
            la == a@.len(),
            la == b@.len(),
            forall|j: int| 0 <= j < i ==> a@[j] == b@[j],
        decreases la - i,
    {
        if a.get_char(i) != b.get_char(i) {
            assert(a@[i as int] != b@[i as int]);
            return false;
        }
        i = i + 1;
    }
    assert(a@ =~= b@);
    true
}

/// The pattern occurs somewhere in the string.
pub open spec fn spec_contains_sub(s: Seq<char>, p: Seq<char>) -> bool {
    exists|i: int| 0 <= i <= s.len() - p.len() && #[trigger] s.subrange(i, i + p.len()) == p
}

/// Reports whether the pattern occurs at the given position.
fn pattern_at(s: &str, p: &str, i: usize) -> (r: bool)
    requires
        i + p@.len() <= s@.len(),
        s@.len() <= usize::MAX,
    ensures
        r == (s@.subrange(i as int, i + p@.len()) == p@),
{
    let pl: usize = p.unicode_len();
    let mut j: usize = 0;
    while j < pl
        invariant
            0 <= j <= pl,
            pl == p@.len(),
            i + pl <= s@.len(),
            s@.len() <= usize::MAX,
            forall|t: int| 0 <= t < j ==> s@[i + t] == p@[t],
        decreases pl - j,
    {
        if s.get_char(i + j) != p.get_char(j) {
            assert(s@[i + j] != p@[j as int]);
            assert(s@.subrange(i as int, i + p@.len())[j as int] == s@[i + j]);
            assert(s@.subrange(i as int, i + p@.len()) != p@);
            return false;
        }
        j = j + 1;
    }
    assert(s@.subrange(i as int, i + p@.len()) =~= p@);
    true
}

/// Reports whether the pattern occurs in the string.
pub fn str_contains(s: &str, p: &str) -> (r: bool)
    ensures
        r == spec_contains_sub(s@, p@),
{
    let sl: usize = s.unicode_len();
    let pl: usize = p.unicode_len();
    if pl == 0 {
        assert(spec_contains_sub(s@, p@)) by {
            assert(s@.subrange(0, 0 + p@.len() as int) =~= p@);
        }
        return true;
    }
    if pl > sl {
        assert(!spec_contains_sub(s@, p@));
        return false;
    }
    let limit: usize = sl - pl;
    let mut i: usize = 0;
    while i <= limit
        invariant
            0 <= i <= limit + 1,
            limit == sl - pl,
            1 <= pl <= sl,
            sl == s@.len(),
            pl == p@.len(),
            forall|k: int| 0 <= k < i ==> #[trigger] s@.subrange(k, k + p@.len()) != p@,
        decreases limit + 1 - i,
    {
        if pattern_at(s, p, i) {
            return true;
        }
        i = i + 1;
    }
    assert(forall|k: int|
        0 <= k <= s@.len() - p@.len() ==> #[trigger] s@.subrange(k, k + p@.len()) != p@);
    false
}

/// The lower-case form of text, as str::to_lowercase computes it; the
/// result depends on the characters alone.
pub uninterp spec fn lower_of(s: Seq<char>) -> Seq<char>;

/// Relies on str::to_lowercase: the Unicode lower-case equivalent of the
/// string, a function of its characters alone.
#[verifier::external_body]
pub(crate) fn lowercase(s: &str) -> (r: String)
    ensures
        r@ == lower_of(s@),
{
    s.to_lowercase()
}

// ---------------------------------------------------------------------------
// Splitting on a separator character
// ---------------------------------------------------------------------------

/// Splits a string at every occurrence of `sep`; n separators yield n+1
/// pieces, so the result is never empty.
pub open spec fn split_char(s: Seq<char>, sep: char) -> Seq<Seq<char>>
    decreases s.len(),
{
    if s.len() == 0 {
        seq![Seq::<char>::empty()]
    } else {
        let prev = split_char(s.drop_last(), sep);
        if s.last() == sep {
            prev.push(Seq::<char>::empty())
        } else {
            prev.update(prev.len() - 1, prev.last().push(s.last()))
        }
    }
}

pub proof fn lemma_split_char_len(s: Seq<char>, sep: char)
    ensures
        split_char(s, sep).len() >= 1,
    decreases s.len(),
{
    if s.len() > 0 {
        lemma_split_char_len(s.drop_last(), sep);
    }
}

/// Ending the input with a separator adds one empty piece.
pub proof fn lemma_split_char_push_sep(s: Seq<char>, sep: char)
    ensures
        split_char(s.push(sep), sep) == split_char(s, sep).push(Seq::<char>::empty()),
{
    assert(s.push(sep).drop_last() =~= s);
    assert(s.push(sep).last() == sep);
}

/// Appending separator-free text extends the last piece and nothing else.
pub proof fn lemma_split_char_append_tok(s: Seq<char>, sep: char, t: Seq<char>)
    requires
        forall|i: int| 0 <= i < t.len() ==> #[trigger] t[i] != sep,
    ensures
        split_char(s + t, sep) == split_char(s, sep).update(
            split_char(s, sep).len() - 1,
            split_char(s, sep).last() + t,
        ),
    decreases t.len(),
{
    lemma_split_char_len(s, sep);
    let prev = split_char(s, sep);
    if t.len() == 0 {
        assert(s + t =~= s);
        assert(prev.last() + t =~= prev.last());
        assert(prev.update(prev.len() - 1, prev.last() + t) =~~= prev);
    } else {
        let t0 = t.drop_last();
        let c = t.last();
        assert(forall|i: int| 0 <= i < t0.len() ==> #[trigger] t0[i] != sep);
        lemma_split_char_append_tok(s, sep, t0);
        let mid = split_char(s + t0, sep);
        assert(s + t =~= (s + t0).push(c));
        assert((s + t0).push(c).drop_last() =~= s + t0);
        assert((s + t0).push(c).last() == c);
        assert(t[t.len() - 1] == c);
        assert(c != sep);
        assert(split_char(s + t, sep) == mid.update(mid.len() - 1, mid.last().push(c)));
        assert(mid.len() == prev.len());
        assert(mid.last() == prev.last() + t0);
        assert((prev.last() + t0).push(c) =~= prev.last() + t);
        assert(mid.update(mid.len() - 1, mid.last().push(c)) =~~= prev.update(
            prev.len() - 1,
            prev.last() + t,
        ));
    }
}

/// No piece of a split contains the separator.
pub proof fn lemma_split_char_tokens_no_sep(s: Seq<char>, sep: char)
    ensures
        forall|k: int, i: int|
            0 <= k < split_char(s, sep).len() && 0 <= i < split_char(s, sep)[k].len()
                ==> #[trigger] split_char(s, sep)[k][i] != sep,
    decreases s.len(),
{
    if s.len() > 0 {
        lemma_split_char_tokens_no_sep(s.drop_last(), sep);
        lemma_split_char_len(s.drop_last(), sep);
        let prev = split_char(s.drop_last(), sep);
        let cur = split_char(s, sep);
        if s.last() == sep {
            assert(forall|k: int| 0 <= k < cur.len() - 1 ==> #[trigger] cur[k] == prev[k]);
            assert(cur[cur.len() - 1].len() == 0);
        } else {
            assert(forall|k: int| 0 <= k < cur.len() - 1 ==> #[trigger] cur[k] == prev[k]);
            assert(cur[cur.len() - 1] == prev.last().push(s.last()));
            assert(forall|i: int|
                0 <= i < prev.last().len() ==> #[trigger] prev.last().push(s.last())[i]
                    == prev.last()[i]);
            assert(prev.last().push(s.last())[prev.last().len() as int] == s.last());
            assert(prev[prev.len() - 1] == prev.last());
        }
    }
}

/// A split yields at most one more piece than the input has characters.
pub proof fn lemma_split_char_count(s: Seq<char>, sep: char)
    ensures
        split_char(s, sep).len() <= s.len() + 1,
    decreases s.len(),
{
    if s.len() > 0 {
        lemma_split_char_count(s.drop_last(), sep);
        lemma_split_char_len(s.drop_last(), sep);
    }
}

/// Splits a string at every occurrence of `sep`, as `split_char` describes.
pub fn split_str(s: &str, sep: char) -> (r: Vec<String>)
    ensures
        r@.map_values(|t: String| t@) == split_char(s@, sep),
{
    let len: usize = s.unicode_len();
    let mut acc: Vec<String> = Vec::new();
    let mut cur: String = String::new();
    let mut i: usize = 0;
    while i < len
        invariant
            0 <= i <= len,
            len == s@.len(),
            split_char(s@.take(i as int), sep) == acc@.map_values(|t: String| t@).push(cur@),
        decreases len - i,
    {
        let c: char = s.get_char(i);
        assert(s@.take(i + 1).drop_last() =~= s@.take(i as int));
        assert(s@.take(i + 1).last() == s@[i as int]);
        let ghost prev = split_char(s@.take(i as int), sep);
        if c == sep {
            acc.push(cur);
            cur = String::new();
            assert(split_char(s@.take(i + 1), sep) =~~= acc@.map_values(|t: String| t@).push(
                cur@,
            ));
        } else {
            cur.push(c);
            proof {
                lemma_split_char_len(s@.take(i as int), sep);
            }
            assert(split_char(s@.take(i + 1), sep) == prev.update(
                prev.len() - 1,
                prev.last().push(c),
            ));
            assert(split_char(s@.take(i + 1), sep) =~~= acc@.map_values(|t: String| t@).push(
                cur@,
            ));
        }
        i = i + 1;
    }
    assert(s@.take(len as int) =~= s@);
    acc.push(cur);
    assert(acc@.map_values(|t: String| t@) =~~= split_char(s@, sep));
    acc
}

// ---------------------------------------------------------------------------
// Lines, as str::lines() yields them
// ---------------------------------------------------------------------------

/// Drops one trailing carriage return, as str::lines() does per line.
pub open spec fn strip_cr(l: Seq<char>) -> Seq<char> {
    if l.len() > 0 && l.last() == '\r' {
        l.drop_last()
    } else {
        l
    }
}

/// The lines of a string in the sense of str::lines(): pieces between
/// newlines, without a final empty piece, each without a trailing '\r'.
pub open spec fn spec_lines(s: Seq<char>) -> Seq<Seq<char>> {
    let ts = split_char(s, '\n');
    let ts1 = if ts.last() == Seq::<char>::empty() {
        ts.drop_last()
    } else {
        ts
    };
    ts1.map_values(|l: Seq<char>| strip_cr(l))
}

/// Splits into lines, as `spec_lines` describes.
pub fn str_lines(s: &str) -> (r: Vec<String>)
    ensures
        r@.map_values(|t: String| t@) == spec_lines(s@),
{
    let parts: Vec<String> = split_str(s, '\n');
    proof {
        lemma_split_char_len(s@, '\n');
    }
    let n: usize = parts.len();
    let keep: usize = if parts[n - 1].as_str().unicode_len() == 0 { n - 1 } else { n };
    let mut out: Vec<String> = Vec::new();
    let ghost ts1 = if split_char(s@, '\n').last() == Seq::<char>::empty() {
        split_char(s@, '\n').drop_last()
    } else {
        split_char(s@, '\n')
    };
    assert(parts@.map_values(|t: String| t@).last() == parts@[n - 1]@);
    proof {
        if parts@[n - 1]@.len() == 0 {
            assert(parts@[n - 1]@ =~= Seq::<char>::empty());
        }
    }
    assert(ts1.len() == keep);
    assert(forall|j: int| 0 <= j < keep ==> ts1[j] == #[trigger] parts@[j]@);
    let mut i: usize = 0;
    while i < keep
        invariant
            0 <= i <= keep,
            keep <= parts@.len(),
            ts1.len() == keep,
            forall|j: int| 0 <= j < keep ==> ts1[j] == #[trigger] parts@[j]@,
            out@.map_values(|t: String| t@) =~= ts1.take(i as int).map_values(
                |l: Seq<char>| strip_cr(l),
            ),
        decreases keep - i,
    {
        let line: &String = &parts[i];
        let llen: usize = line.as_str().unicode_len();
        let stripped: String = if llen > 0 && line.as_str().get_char(llen - 1) == '\r' {
            String::from_str(line.as_str().substring_char(0, llen - 1))
        } else {
            line.clone()
        };
        assert(stripped@ == strip_cr(parts@[i as int]@)) by {
            if llen > 0 && parts@[i as int]@.last() == '\r' {
                assert(parts@[i as int]@.subrange(0, llen - 1) =~= parts@[i as int]@.drop_last());
            }
        }
        assert(stripped@ == strip_cr(ts1[i as int]));
        let ghost prev_out = out@;
        out.push(stripped);
        assert(ts1.take(i + 1) =~= ts1.take(i as int).push(ts1[i as int]));
        proof {
            let prev_map = prev_out.map_values(|t: String| t@);
            assert(prev_map.len() == prev_out.len());
            assert(ts1.take(i as int).map_values(|l: Seq<char>| strip_cr(l)).len() == i as int);
            assert(prev_out.len() == i as int);
            let lhs = out@.map_values(|t: String| t@);
            let rhs = ts1.take(i + 1).map_values(|l: Seq<char>| strip_cr(l));
            assert(out@.len() == i + 1);
            assert forall|j: int| 0 <= j < i + 1 implies lhs[j] == rhs[j] by {
                assert(rhs[j] == strip_cr(ts1.take(i + 1)[j]));
                assert(lhs[j] == out@[j]@);
                if j < i {
                    assert(out@[j] == prev_out[j]);
                    assert(prev_map[j] == prev_out[j]@);
                    assert(ts1.take(i as int).map_values(|l: Seq<char>| strip_cr(l))[j]
                        == strip_cr(ts1.take(i as int)[j]));
                    assert(ts1.take(i + 1)[j] == ts1.take(i as int)[j]);
                } else {
                    assert(out@[j]@ == strip_cr(ts1[i as int]));
                    assert(ts1.take(i + 1)[j] == ts1[i as int]);
                }
            }
            assert(lhs =~= rhs);
        }
        i = i + 1;
    }
    assert(ts1.take(keep as int) =~= ts1);
    assert(out@.map_values(|t: String| t@) =~= spec_lines(s@));
    out
}

// ---------------------------------------------------------------------------
// Whitespace-separated fields, as str::split_whitespace() yields them
// ---------------------------------------------------------------------------

/// The maximal runs of non-whitespace characters, in order.
pub open spec fn spec_fields(s: Seq<char>) -> Seq<Seq<char>>
    decreases s.len(),
{
    if s.len() == 0 {
        Seq::<Seq<char>>::empty()
    } else {
        let prev = spec_fields(s.drop_last());
        let c = s.last();
        if is_ws_char(c) {
            prev
        } else if s.len() >= 2 && !is_ws_char(s[s.len() - 2]) {
            prev.update(prev.len() - 1, prev.last().push(c))
        } else {
            prev.push(seq![c])
        }
    }
}

/// Appending one whitespace character leaves the fields unchanged.
pub proof fn lemma_fields_push_ws(s: Seq<char>, c: char)
    requires
        is_ws_char(c),
    ensures
        spec_fields(s.push(c)) == spec_fields(s),
{
    assert(s.push(c).drop_last() =~= s);
    assert(s.push(c).last() == c);
}

/// Appending a non-empty whitespace-free token to text that is empty or ends
/// in whitespace appends exactly that token as one new field.
pub proof fn lemma_fields_append_tok(s: Seq<char>, t: Seq<char>)
    requires
        t.len() > 0,
        forall|i: int| 0 <= i < t.len() ==> !is_ws_char(#[trigger] t[i]),
        s.len() == 0 || is_ws_char(s.last()),
    ensures
        spec_fields(s + t) == spec_fields(s).push(t),
    decreases t.len(),
{
    if t.len() == 1 {
        let c = t[0];
        assert(s + t =~= s.push(c));
        assert(s.push(c).drop_last() =~= s);
        assert(s.push(c).last() == c);
        if s.len() > 0 {
            assert(s.push(c)[s.push(c).len() - 2] == s.last());
        }
        assert(spec_fields(s + t) == spec_fields(s).push(seq![c]));
        assert(seq![c] =~= t);
    } else {
        let t0 = t.drop_last();
        let c = t.last();
        assert(forall|i: int| 0 <= i < t0.len() ==> !is_ws_char(#[trigger] t0[i]));
        lemma_fields_append_tok(s, t0);
        assert(s + t =~= (s + t0).push(c));
        assert((s + t0).push(c).drop_last() =~= s + t0);
        assert((s + t0).push(c).last() == c);
        assert(!is_ws_char(c)) by {
            assert(t[t.len() - 1] == c);
        }
        let u = (s + t0).push(c);
        assert(u.len() >= 2);
        assert(u[u.len() - 2] == t0.last()) by {
            assert((s + t0).last() == t0.last());
        }
        assert(!is_ws_char(t0.last())) by {
            assert(t0[t0.len() - 1] == t0.last());
        }
        let prev = spec_fields(s + t0);
        assert(spec_fields(s + t) == prev.update(prev.len() - 1, prev.last().push(c)));
        assert(prev == spec_fields(s).push(t0));
        assert(prev.last() == t0);
        assert(t0.push(c) =~= t);
        assert(prev.update(prev.len() - 1, t0.push(c)) =~~= spec_fields(s).push(t));
    }
}

/// Every field is non-empty and free of whitespace.
pub proof fn lemma_fields_tokens_wf(s: Seq<char>)
    ensures
        forall|k: int| 0 <= k < spec_fields(s).len() ==> (#[trigger] spec_fields(s)[k]).len() > 0,
        forall|k: int, i: int|
            0 <= k < spec_fields(s).len() && 0 <= i < spec_fields(s)[k].len() ==> !is_ws_char(
                #[trigger] spec_fields(s)[k][i],
            ),
        s.len() > 0 && !is_ws_char(s.last()) ==> spec_fields(s).len() > 0,
    decreases s.len(),
{
    if s.len() > 0 {
        lemma_fields_tokens_wf(s.drop_last());
        let prev = spec_fields(s.drop_last());
        let cur = spec_fields(s);
        let c = s.last();
        if is_ws_char(c) {
        } else if s.len() >= 2 && !is_ws_char(s[s.len() - 2]) {
            assert(s.drop_last().len() > 0 && s.drop_last().last() == s[s.len() - 2]);
            assert(prev.len() > 0);
            assert(cur == prev.update(prev.len() - 1, prev.last().push(c)));
            assert(forall|k: int| 0 <= k < cur.len() - 1 ==> #[trigger] cur[k] == prev[k]);
            assert(cur[cur.len() - 1] == prev.last().push(c));
            assert(forall|i: int|
                0 <= i < prev.last().len() ==> #[trigger] prev.last().push(c)[i]
                    == prev.last()[i]);
            assert(prev.last().push(c)[prev.last().len() as int] == c);
            assert(prev[prev.len() - 1] == prev.last());
        } else {
            assert(cur == prev.push(seq![c]));
            assert(forall|k: int| 0 <= k < cur.len() - 1 ==> #[trigger] cur[k] == prev[k]);
            assert(cur[cur.len() - 1] == seq![c]);
            assert(seq![c].len() == 1 && seq![c][0] == c);
        }
    }
}

/// Splits into whitespace-separated fields, as `spec_fields` describes.
pub fn str_fields(s: &str) -> (r: Vec<String>)
    ensures
        r@.map_values(|t: String| t@) == spec_fields(s@),
{
    let len: usize = s.unicode_len();
    let mut acc: Vec<String> = Vec::new();
    let mut cur: String = String::new();
    let mut prev_ws: bool = true;
    let mut i: usize = 0;
    while i < len
        invariant
            0 <= i <= len,
            len == s@.len(),
            prev_ws == (i == 0 || is_ws_char(s@[i - 1])),
            prev_ws ==> spec_fields(s@.take(i as int)) == acc@.map_values(|t: String| t@)
                && cur@.len() == 0,
            !prev_ws ==> spec_fields(s@.take(i as int)) == acc@.map_values(|t: String| t@).push(
                cur@,
            ) && cur@.len() > 0,
        decreases len - i,
    {
        let c: char = s.get_char(i);
        assert(s@.take(i + 1).drop_last() =~= s@.take(i as int));
        assert(s@.take(i + 1).last() == s@[i as int]);
        if i >= 1 {
            assert(s@.take(i + 1)[i - 1] == s@[i - 1]);
        }
        let ghost prev = spec_fields(s@.take(i as int));
        if c == ' ' || c == '\t' || c == '\r' || c == '\n' {
            if !prev_ws {
                acc.push(cur);
                cur = String::new();
            }
            assert(spec_fields(s@.take(i + 1)) == acc@.map_values(|t: String| t@));
            prev_ws = true;
        } else {
            if prev_ws {
                assert(spec_fields(s@.take(i + 1)) == prev.push(seq![c]));
            } else {
                assert(spec_fields(s@.take(i + 1)) == prev.update(
                    prev.len() - 1,
                    prev.last().push(c),
                ));
            }
            cur.push(c);
            assert(spec_fields(s@.take(i + 1)) =~~= acc@.map_values(|t: String| t@).push(cur@));
            prev_ws = false;
        }
        i = i + 1;
    }
    assert(s@.take(len as int) =~= s@);
    if !prev_ws {
        acc.push(cur);
    }
    assert(acc@.map_values(|t: String| t@) =~~= spec_fields(s@));
    acc
}

// ---------------------------------------------------------------------------
// Trimming ASCII whitespace
// ---------------------------------------------------------------------------

pub open spec fn trim_end_spec(s: Seq<char>) -> Seq<char>
    decreases s.len(),
{
    if s.len() > 0 && is_ws_char(s.last()) {
        trim_end_spec(s.drop_last())
    } else {
        s
    }
}

pub open spec fn trim_start_spec(s: Seq<char>) -> Seq<char>
    decreases s.len(),
{
    if s.len() > 0 && is_ws_char(s[0]) {
        trim_start_spec(s.skip(1))
    } else {
        s
    }
}

/// The string without leading and trailing ASCII whitespace.
pub open spec fn spec_trim(s: Seq<char>) -> Seq<char> {
    trim_start_spec(trim_end_spec(s))
}

/// Reports whether the character at index i is ASCII whitespace.
fn ws_at(s: &str, i: usize) -> (r: bool)
    requires
        i < s@.len(),
    ensures
        r == is_ws_char(s@[i as int]),
{
    let c: char = s.get_char(i);
    c == ' ' || c == '\t' || c == '\r' || c == '\n'
}

/// Trims leading and trailing ASCII whitespace, as `spec_trim` describes.
pub fn str_trim<'a>(s: &'a str) -> (r: &'a str)
    ensures
        r@ == spec_trim(s@),
{
    let len: usize = s.unicode_len();
    assert(s@.take(len as int) =~= s@);
    let mut end: usize = len;
    while end > 0 && ws_at(s, end - 1)
        invariant
            0 <= end <= len,
            len == s@.len(),
            trim_end_spec(s@) == trim_end_spec(s@.take(end as int)),
        decreases end,
    {
        assert(s@.take(end as int).last() == s@[end - 1]);
        assert(s@.take(end as int).drop_last() =~= s@.take(end - 1));
        end = end - 1;
    }
    assert(trim_end_spec(s@.take(end as int)) == s@.take(end as int)) by {
        if end > 0 {
            assert(s@.take(end as int).last() == s@[end - 1]);
        }
    }
    let mut start: usize = 0;
    while start < end && ws_at(s, start)
        invariant
            0 <= start <= end <= len,
            len == s@.len(),
            trim_end_spec(s@) == s@.take(end as int),
            trim_start_spec(s@.take(end as int)) == trim_start_spec(
                s@.subrange(start as int, end as int),
            ),
        decreases end - start,
    {
        assert(s@.subrange(start as int, end as int)[0] == s@[start as int]);
        assert(s@.subrange(start as int, end as int).skip(1) =~= s@.subrange(
            start + 1,
            end as int,
        ));
        start = start + 1;
    }
    assert(trim_start_spec(s@.subrange(start as int, end as int)) == s@.subrange(
        start as int,
        end as int,
    )) by {
        if start < end {
            assert(s@.subrange(start as int, end as int)[0] == s@[start as int]);
        }
    }
    s.substring_char(start, end)
}

} // verus!
