//! Verified text utilities: decimal numerals, whitespace tokenizing and
//! character-level string handling.
//!
//! The directory side file, the id counter file and block filenames are all
//! decimal text, and filters are parsed from token pairs; everything needed
//! for them is proved here from first principles.

use vstd::prelude::*;
use vstd::string::StrSliceExecFns;

use crate::outside::push_char;

verus! {

/// ASCII whitespace, the separators recognized when tokenizing.
pub open spec fn is_space(c: char) -> bool {
    c == ' ' || c == '\t' || c == '\n' || c == '\r'
}

/// ASCII decimal digit.
pub open spec fn is_digit(c: char) -> bool {
    48 <= c as u32 && c as u32 <= 57
}

/// Numeric value of a decimal digit character.
pub open spec fn digit_val(c: char) -> int {
    c as u32 - 48
}

/// Every character of `s` is a decimal digit.
pub open spec fn all_digits(s: Seq<char>) -> bool {
    forall|i: int| 0 <= i < s.len() ==> is_digit(#[trigger] s[i])
}

/// Value of a most-significant-first digit string.
pub open spec fn dec_value(s: Seq<char>) -> int
    decreases s.len(),
{
    if s.len() == 0 {
        0
    } else {
        dec_value(s.drop_last()) * 10 + digit_val(s.last())
    }
}

/// Value of a least-significant-first digit string.
pub open spec fn rev_value(s: Seq<char>) -> int
    decreases s.len(),
{
    if s.len() == 0 {
        0
    } else {
        digit_val(s[0]) + 10 * rev_value(s.drop_first())
    }
}

/// Powers of ten.
pub open spec fn pow10(n: nat) -> int
    decreases n,
{
    if n == 0 {
        1
    } else {
        10 * pow10((n - 1) as nat)
    }
}

pub proof fn lemma_dec_value_nonneg(s: Seq<char>)
    requires
        all_digits(s),
    ensures
        0 <= dec_value(s),
    decreases s.len(),
{
    if s.len() > 0 {
        assert(all_digits(s.drop_last()));
        lemma_dec_value_nonneg(s.drop_last());
    }
}

/// Extending a digit string to the right never decreases its value.
pub proof fn lemma_dec_prefix_le(s: Seq<char>, i: int, j: int)
    requires
        all_digits(s),
        0 <= i <= j <= s.len(),
    ensures
        dec_value(s.take(i)) <= dec_value(s.take(j)),
    decreases j - i,
{
    if i < j {
        lemma_dec_prefix_le(s, i, j - 1);
        let p = s.take(j);
        assert(p.drop_last() =~= s.take(j - 1));
        assert(all_digits(s.take(j - 1)));
        lemma_dec_value_nonneg(s.take(j - 1));
        assert(is_digit(s[j - 1]));
    }
}

/// The decimal digit character of a value below ten.
pub open spec fn char_of_digit(d: int) -> char {
    if d == 0 {
        '0'
    } else if d == 1 {
        '1'
    } else if d == 2 {
        '2'
    } else if d == 3 {
        '3'
    } else if d == 4 {
        '4'
    } else if d == 5 {
        '5'
    } else if d == 6 {
        '6'
    } else if d == 7 {
        '7'
    } else if d == 8 {
        '8'
    } else {
        '9'
    }
}

/// The canonical decimal numeral of a nonnegative value: most significant
/// digit first, with no leading zero.
pub open spec fn dec_numeral(v: int) -> Seq<char>
    decreases v,
{
    if v < 10 {
        seq![char_of_digit(v)]
    } else {
        dec_numeral(v / 10).push(char_of_digit(v % 10))
    }
}

/// A digit character is determined by its value.
proof fn lemma_digit_char_unique(c: char)
    requires
        is_digit(c),
    ensures
        char_of_digit(digit_val(c)) == c,
{
    assert(48 <= c as u32 <= 57);
    assert('0' as u32 == 48 && '1' as u32 == 49 && '2' as u32 == 50 && '3' as u32 == 51
        && '4' as u32 == 52 && '5' as u32 == 53 && '6' as u32 == 54 && '7' as u32 == 55
        && '8' as u32 == 56 && '9' as u32 == 57);
}

/// A digit string that starts with a nonzero digit has a positive value.
pub proof fn lemma_dec_value_pos(s: Seq<char>)
    requires
        s.len() >= 1,
        all_digits(s),
        digit_val(s[0]) >= 1,
    ensures
        dec_value(s) >= 1,
    decreases s.len(),
{
    if s.len() == 1 {
        assert(s.drop_last() =~= Seq::<char>::empty());
        assert(dec_value(Seq::<char>::empty()) == 0);
    } else {
        let dl = s.drop_last();
        assert(all_digits(dl));
        assert(dl[0] == s[0]);
        lemma_dec_value_pos(dl);
        assert(is_digit(s.last()));
    }
}

/// There is exactly one digit string without a leading zero for each
/// value: a well-formed numeral equals the canonical one of its value.
pub proof fn lemma_numeral_unique(s: Seq<char>)
    requires
        s.len() >= 1,
        all_digits(s),
        s.len() > 1 ==> digit_val(s[0]) >= 1,
    ensures
        s == dec_numeral(dec_value(s)),
    decreases s.len(),
{
    let v = dec_value(s);
    if s.len() == 1 {
        assert(s.drop_last() =~= Seq::<char>::empty());
        assert(dec_value(Seq::<char>::empty()) == 0);
        assert(v == digit_val(s[0]));
        assert(is_digit(s[0]));
        lemma_digit_char_unique(s[0]);
        assert(s =~= seq![char_of_digit(v)]);
    } else {
        let dl = s.drop_last();
        assert(all_digits(dl));
        assert(dl[0] == s[0]);
        lemma_dec_value_pos(dl);
        lemma_numeral_unique(dl);
        assert(is_digit(s.last()));
        lemma_digit_char_unique(s.last());
        assert(v == dec_value(dl) * 10 + digit_val(s.last()));
        assert(v / 10 == dec_value(dl) && v % 10 == digit_val(s.last())) by (nonlinear_arith)
            requires
                v == dec_value(dl) * 10 + digit_val(s.last()),
                0 <= digit_val(s.last()) < 10,
                dec_value(dl) >= 1,
        ;
        assert(v >= 10);
        assert(dec_numeral(v) == dec_numeral(v / 10).push(char_of_digit(v % 10)));
        assert(s =~= dl.push(s.last()));
    }
}

/// A least-significant-first digit string has the value of its reversal.
proof fn lemma_rev_pairs(s: Seq<char>, t: Seq<char>)
    requires
        s.len() == t.len(),
        forall|k: int| 0 <= k < s.len() ==> t[k] == s[s.len() - 1 - k],
    ensures
        dec_value(t) == rev_value(s),
    decreases s.len(),
{
    if s.len() > 0 {
        let s2 = s.drop_first();
        let t2 = t.drop_last();
        assert(forall|k: int| 0 <= k < s2.len() ==> t2[k] == s2[s2.len() - 1 - k]);
        lemma_rev_pairs(s2, t2);
        assert(t.last() == s[0]);
    }
}

/// Appending one digit on the little-endian side.
proof fn lemma_rev_push(s: Seq<char>, c: char)
    ensures
        rev_value(s.push(c)) == rev_value(s) + digit_val(c) * pow10(s.len() as nat),
        pow10(s.push(c).len() as nat) == 10 * pow10(s.len() as nat),
    decreases s.len(),
{
    let p = s.push(c);
    if s.len() == 0 {
        assert(rev_value(Seq::<char>::empty()) == 0);
        assert(p.drop_first() =~= Seq::<char>::empty());
        assert(p[0] == c);
        assert(rev_value(p) == digit_val(p[0]) + 10 * rev_value(p.drop_first()));
        assert(rev_value(p) == digit_val(c));
    } else {
        assert(p.drop_first() =~= s.drop_first().push(c));
        let df = s.drop_first();
        lemma_rev_push(df, c);
        assert(rev_value(p) == digit_val(p[0]) + 10 * rev_value(p.drop_first()));
        assert(p[0] == s[0]);
        assert(rev_value(p.drop_first()) == rev_value(df) + digit_val(c) * pow10(df.len() as nat));
        assert(10 * (rev_value(df) + digit_val(c) * pow10(df.len() as nat))
            == 10 * rev_value(df)
                + digit_val(c) * (10 * pow10(df.len() as nat))) by (nonlinear_arith);
        assert(pow10(s.len() as nat) == 10 * pow10((s.len() - 1) as nat));
        assert(df.len() == s.len() - 1);
        assert(rev_value(s) == digit_val(s[0]) + 10 * rev_value(df));
        assert(rev_value(p) == rev_value(s) + digit_val(c) * pow10(s.len() as nat));
    }
}

/// The digit character of a value below ten.
pub fn digit_char(d: u64) -> (c: char)
    requires
        d < 10,
    ensures
        is_digit(c),
        digit_val(c) == d,
{
    if d == 0 {
        '0'
    } else if d == 1 {
        '1'
    } else if d == 2 {
        '2'
    } else if d == 3 {
        '3'
    } else if d == 4 {
        '4'
    } else if d == 5 {
        '5'
    } else if d == 6 {
        '6'
    } else if d == 7 {
        '7'
    } else if d == 8 {
        '8'
    } else {
        '9'
    }
}

/// Parse a decimal `u64` from a character vector.
///
/// Succeeds exactly on non-empty all-digit strings whose value fits in a
/// `u64`, and then returns that value.
pub fn parse_u64_chars(s: &Vec<char>) -> (r: Option<u64>)
    ensures
        match r {
            Some(v) => s@.len() >= 1 && all_digits(s@) && v == dec_value(s@),
            None => s@.len() == 0 || !all_digits(s@) || dec_value(s@) > u64::MAX,
        },
{
    let n = s.len();
    if n == 0 {
        return None;
    }
    let mut acc: u64 = 0;
    let mut i: usize = 0;
    while i < n
        invariant
            i <= n,
            n == s@.len(),
            all_digits(s@.take(i as int)),
            acc == dec_value(s@.take(i as int)),
        decreases n - i,
    {
        let c = s[i];
        let cv = c as u32;
        if cv < 48 || cv > 57 {
            return None;
        }
        let d: u64 = (cv - 48) as u64;
        proof {
            assert(s@.take(i as int + 1).drop_last() =~= s@.take(i as int));
            assert(s@.take(i as int + 1).last() == s@[i as int]);
        }
        if acc > 1844674407370955161u64 || (acc == 1844674407370955161u64 && d > 5) {
            proof {
                let j = i as int + 1;
                assert(dec_value(s@.take(j)) > u64::MAX);
                if all_digits(s@) {
                    lemma_dec_prefix_le(s@, j, s@.len() as int);
                    assert(s@.take(s@.len() as int) =~= s@);
                }
            }
            return None;
        }
        acc = acc * 10 + d;
        i = i + 1;
        proof {
            assert(all_digits(s@.take(i as int)));
        }
    }
    proof {
        assert(s@.take(n as int) =~= s@);
    }
    Some(acc)
}

/// Render a `u64` as its decimal numeral.
///
/// The result is the canonical numeral: non-empty, all digits, no leading
/// zero (unless it is exactly "0"), and it parses back to the argument.
pub fn render_u64_chars(v: u64) -> (r: Vec<char>)
    ensures
        r@.len() >= 1,
        all_digits(r@),
        dec_value(r@) == v,
        r@.len() > 1 ==> r@[0] != '0',
        r@ == dec_numeral(v as int),
{
    let mut tmp: Vec<char> = Vec::new();
    let mut x: u64 = v;
    while x >= 10
        invariant
            rev_value(tmp@) + (x as int) * pow10(tmp@.len() as nat) == v,
            all_digits(tmp@),
            tmp@.len() > 0 ==> x >= 1,
        decreases x,
    {
        let c: char = digit_char(x % 10);
        let ghost t0 = tmp@;
        tmp.push(c);
        proof {
            lemma_rev_push(t0, c);
            assert((x as int) == 10 * ((x / 10) as int) + (x % 10) as int);
            assert((x as int) * pow10(t0.len() as nat)
                == (x % 10) as int * pow10(t0.len() as nat)
                    + ((x / 10) as int) * (10 * pow10(t0.len() as nat))) by (nonlinear_arith)
                requires
                    (x as int) == 10 * ((x / 10) as int) + (x % 10) as int,
            ;
        }
        x = x / 10;
    }
    let c: char = digit_char(x);
    let ghost t0 = tmp@;
    tmp.push(c);
    proof {
        lemma_rev_push(t0, c);
    }

    // Reverse into most-significant-first order.
    let mut out: Vec<char> = Vec::new();
    let mut j: usize = tmp.len();
    while j > 0
        invariant
            j <= tmp@.len(),
            out@.len() == tmp@.len() - j,
            forall|k: int| 0 <= k < out@.len() ==> out@[k] == tmp@[tmp@.len() - 1 - k],
        decreases j,
    {
        j = j - 1;
        out.push(tmp[j]);
    }
    proof {
        lemma_rev_pairs(tmp@, out@);
        if out@.len() > 1 {
            assert(out@[0] == tmp@[tmp@.len() - 1]);
            assert(tmp@[tmp@.len() - 1] == c);
            assert(t0.len() > 0);
            assert(digit_val(c) >= 1);
            assert(digit_val('0') == 0);
        }
        lemma_numeral_unique(out@);
    }
    out
}

/// Render a `u64` as a decimal string.
pub fn render_u64_string(v: u64) -> (r: String)
    ensures
        r@.len() >= 1,
        all_digits(r@),
        dec_value(r@) == v,
{
    let chars = render_u64_chars(v);
    string_from_chars(&chars)
}

/// Render an `i64` as a decimal string, with a leading minus sign when
/// negative.
pub fn render_i64_string(v: i64) -> (r: String)
    ensures
        v >= 0 ==> all_digits(r@) && dec_value(r@) == v,
        v < 0 ==> r@.len() >= 2 && r@[0] == '-' && all_digits(r@.skip(1)) && dec_value(r@.skip(1))
            == -(v as int),
{
    if v >= 0 {
        render_u64_string(v as u64)
    } else {
        let m: u64 = ((-(v as i128)) as u64);
        let digits = render_u64_chars(m);
        let mut chars: Vec<char> = Vec::new();
        chars.push('-');
        let mut i: usize = 0;
        while i < digits.len()
            invariant
                i <= digits@.len(),
                chars@.len() == i + 1,
                chars@[0] == '-',
                forall|k: int| 0 <= k < i ==> chars@[k + 1] == digits@[k],
            decreases digits@.len() - i,
        {
            chars.push(digits[i]);
            i = i + 1;
        }
        proof {
            assert(chars@.skip(1) =~= digits@);
        }
        string_from_chars(&chars)
    }
}

/// Character-by-character equality of two strings.
pub fn str_eq(a: &str, b: &str) -> (r: bool)
    ensures
        r == (a@ == b@),
{
    let na = a.unicode_len();
    let nb = b.unicode_len();
    if na != nb {
        return false;
    }
    let mut i: usize = 0;
    while i < na
        invariant
            i <= na,
            na == a@.len(),
            na == b@.len(),
            forall|k: int| 0 <= k < i ==> a@[k] == b@[k],
        decreases na - i,
    {
        if a.get_char(i) != b.get_char(i) {
            return false;
        }
        i = i + 1;
    }
    proof {
        assert(a@ =~= b@);
    }
    true
}

/// The characters of a string, as a vector.
pub fn string_to_chars(s: &str) -> (r: Vec<char>)
    ensures
        r@ == s@,
{
    let n = s.unicode_len();
    let mut out: Vec<char> = Vec::new();
    let mut i: usize = 0;
    while i < n
        invariant
            i <= n,
            n == s@.len(),
            out@ == s@.take(i as int),
        decreases n - i,
    {
        out.push(s.get_char(i));
        proof {
            assert(out@ =~= s@.take(i as int + 1));
        }
        i = i + 1;
    }
    proof {
        assert(out@ =~= s@);
    }
    out
}

/// A string with exactly the given characters.
pub fn string_from_chars(v: &Vec<char>) -> (r: String)
    ensures
        r@ == v@,
{
    let mut out = String::new();
    let mut i: usize = 0;
    while i < v.len()
        invariant
            i <= v@.len(),
            out@ == v@.take(i as int),
        decreases v@.len() - i,
    {
        push_char(&mut out, v[i]);
        proof {
            assert(out@ =~= v@.take(i as int + 1));
        }
        i = i + 1;
    }
    proof {
        assert(out@ =~= v@);
    }
    out
}

/// The separator set used when splitting: full ASCII whitespace, or
/// newlines alone (for the directory file's lines).
pub open spec fn sep_for(newline_only: bool, c: char) -> bool {
    if newline_only {
        c == '\n'
    } else {
        is_space(c)
    }
}

/// Splits a character sequence at separators; separators are dropped and
/// empty tokens never appear.
pub open spec fn split_tokens(s: Seq<char>, newline_only: bool) -> Seq<Seq<char>>
    decreases s.len(),
{
    if s.len() == 0 {
        Seq::empty()
    } else {
        let rest = split_tokens(s.drop_last(), newline_only);
        let c = s.last();
        if sep_for(newline_only, c) {
            rest
        } else if s.len() == 1 || sep_for(newline_only, s[s.len() - 2]) {
            rest.push(seq![c])
        } else {
            rest.update(rest.len() - 1, rest.last().push(c))
        }
    }
}

/// After a non-separator character the token list is non-empty and its last
/// token is non-empty.
pub proof fn lemma_split_last(s: Seq<char>, newline_only: bool)
    requires
        s.len() >= 1,
        !sep_for(newline_only, s.last()),
    ensures
        split_tokens(s, newline_only).len() >= 1,
        split_tokens(s, newline_only).last().len() >= 1,
    decreases s.len(),
{
    if s.len() >= 2 && !sep_for(newline_only, s[s.len() - 2]) {
        assert(s.drop_last().last() == s[s.len() - 2]);
        lemma_split_last(s.drop_last(), newline_only);
    }
}

/// The words of a vector of character vectors.
pub open spec fn words_view(v: Seq<Vec<char>>) -> Seq<Seq<char>> {
    Seq::new(v.len(), |i: int| v[i]@)
}

/// Split a character vector into tokens at separators.
pub fn tokenize(s: &Vec<char>, newline_only: bool) -> (r: Vec<Vec<char>>)
    ensures
        words_view(r@) == split_tokens(s@, newline_only),
{
    let mut words: Vec<Vec<char>> = Vec::new();
    let n = s.len();
    let mut i: usize = 0;
    while i < n
        invariant
            i <= n,
            n == s@.len(),
            words_view(words@) == split_tokens(s@.take(i as int), newline_only),
        decreases n - i,
    {
        let c = s[i];
        let is_sep = if newline_only {
            c == '\n'
        } else {
            c == ' ' || c == '\t' || c == '\n' || c == '\r'
        };
        let ghost prefix = s@.take(i as int);
        let ghost prefix2 = s@.take(i as int + 1);
        proof {
            assert(prefix2.drop_last() =~= prefix);
            assert(prefix2.last() == s@[i as int]);
        }
        if is_sep {
            // separators contribute no token
        } else {
            let prev_sep = if i == 0 {
                true
            } else {
                let p = s[i - 1];
                if newline_only {
                    p == '\n'
                } else {
                    p == ' ' || p == '\t' || p == '\n' || p == '\r'
                }
            };
            if prev_sep {
                let mut w: Vec<char> = Vec::new();
                w.push(c);
                words.push(w);
                proof {
                    assert(w@ =~= seq![c]);
                    assert(words_view(words@) =~= split_tokens(prefix2, newline_only));
                }
            } else {
                proof {
                    assert(prefix.last() == s@[i as int - 1]);
                    lemma_split_last(prefix, newline_only);
                    assert(words@.len() >= 1);
                }
                let mut w = match words.pop() {
                    Some(w) => w,
                    None => Vec::new(),
                };
                w.push(c);
                words.push(w);
                proof {
                    assert(words_view(words@) =~= split_tokens(prefix2, newline_only));
                }
            }
        }
        i = i + 1;
    }
    proof {
        assert(s@.take(n as int) =~= s@);
    }
    words
}

/// Concatenation of a list of tokens, with no separator.
pub open spec fn concat_words(ws: Seq<Seq<char>>) -> Seq<char>
    decreases ws.len(),
{
    if ws.len() == 0 {
        Seq::empty()
    } else {
        concat_words(ws.drop_last()) + ws.last()
    }
}

/// Join a range of tokens with no separator.
pub fn join_words(ws: &Vec<Vec<char>>, from: usize, to: usize) -> (r: Vec<char>)
    requires
        from <= to <= ws@.len(),
    ensures
        r@ == concat_words(words_view(ws@).subrange(from as int, to as int)),
{
    let mut out: Vec<char> = Vec::new();
    let mut i: usize = from;
    proof {
        assert(words_view(ws@).subrange(from as int, from as int) =~= Seq::<Seq<char>>::empty());
    }
    while i < to
        invariant
            from <= i <= to <= ws@.len(),
            out@ == concat_words(words_view(ws@).subrange(from as int, i as int)),
        decreases to - i,
    {
        let w = &ws[i];
        let mut k: usize = 0;
        let ghost out0 = out@;
        proof {
            assert(out0 + w@.take(0) =~= out0);
        }
        while k < w.len()
            invariant
                k <= w@.len(),
                out@ == out0 + w@.take(k as int),
            decreases w@.len() - k,
        {
            out.push(w[k]);
            proof {
                assert(out@ =~= out0 + w@.take(k as int + 1));
            }
            k = k + 1;
        }
        proof {
            let vv = words_view(ws@);
            assert(w@ =~= w@.take(w@.len() as int));
            assert(vv.subrange(from as int, i as int + 1).drop_last()
                =~= vv.subrange(from as int, i as int));
            assert(vv.subrange(from as int, i as int + 1).last() == vv[i as int]);
            assert(out@ =~= concat_words(vv.subrange(from as int, i as int + 1)));
        }
        i = i + 1;
    }
    out
}

} // verus!
