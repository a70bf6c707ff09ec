//! Character-level helpers shared by the parser, the decoder and the
//! analyzer: extracting the characters of a string, rendering unsigned
//! integers in decimal, lexicographic ordering, substring search, and the
//! whitespace classification used for trimming and token splitting.
use vstd::prelude::*;

verus! {

/// The characters of `s`, as a vector that supports random access.
pub fn chars_of(s: &str) -> (v: Vec<char>)
    ensures
        v@ == s@,
{
    let n = s.unicode_len();
    let mut v: Vec<char> = Vec::new();
    let mut i: usize = 0;
    while i < n
        invariant
            n == s@.len(),
            i <= n,
            v@ == s@.subrange(0, i as int),
        decreases n - i,
    {
        v.push(s.get_char(i));
        i = i + 1;
        proof {
            assert(v@ =~= s@.subrange(0, i as int));
        }
    }
    proof {
        assert(v@ =~= s@);
    }
    v
}

/// The decimal digit character for a value below ten.
pub open spec fn digit_char(d: int) -> char {
    if d == 0 {
        '0'
    } else if d == 1 {
        '1'
    } else if d == 2 {
        '2'
    } else if d == 3 {
        '3'
    } else if d == 4 {
        '4'
    } else if d == 5 {
        '5'
    } else if d == 6 {
        '6'
    } else if d == 7 {
        '7'
    } else if d == 8 {
        '8'
    } else {
        '9'
    }
}

/// The decimal rendering of `n`, most significant digit first, with no
/// leading zero (`0` itself is rendered as the single digit `0`).
pub open spec fn spec_u64_string(n: nat) -> Seq<char>
    decreases n,
{
    if n < 10 {
        seq![digit_char(n as int)]
    } else {
        spec_u64_string(n / 10).push(digit_char((n % 10) as int))
    }
}

fn digit_str(d: u64) -> (r: &'static str)
    requires
        d < 10,
    ensures
        r@ == seq![digit_char(d as int)],
{
    let r: &'static str = if d == 0 {
        "0"
    } else if d == 1 {
        "1"
    } else if d == 2 {
        "2"
    } else if d == 3 {
        "3"
    } else if d == 4 {
        "4"
    } else if d == 5 {
        "5"
    } else if d == 6 {
        "6"
    } else if d == 7 {
        "7"
    } else if d == 8 {
        "8"
    } else {
        "9"
    };
    proof {
        reveal_strlit("0");
        reveal_strlit("1");
        reveal_strlit("2");
        reveal_strlit("3");
        reveal_strlit("4");
        reveal_strlit("5");
        reveal_strlit("6");
        reveal_strlit("7");
        reveal_strlit("8");
        reveal_strlit("9");
        assert(r@ =~= seq![digit_char(d as int)]);
    }
    r
}

/// Renders `n` in decimal, with no leading zeros.
pub fn u64_to_string(n: u64) -> (r: String)
    ensures
        r@ == spec_u64_string(n as nat),
    decreases n,
{
    if n < 10 {
        digit_str(n).to_owned()
    } else {
        let mut s = u64_to_string(n / 10);
        s.append(digit_str(n % 10));
        proof {
            assert(s@ =~= spec_u64_string(n as nat));
        }
        s
    }
}

/// Whether `c` is a decimal digit.
pub open spec fn is_digit(c: char) -> bool {
    48 <= c as u32 && c as u32 <= 57
}

/// The value of a digit character.
pub open spec fn char_digit(c: char) -> int {
    c as u32 - 48
}

/// The unsigned value of a digit sequence, most significant digit first.
pub open spec fn digits_val(s: Seq<char>) -> nat
    decreases s.len(),
{
    if s.len() == 0 {
        0
    } else {
        digits_val(s.drop_last()) * 10 + char_digit(s.last()) as nat
    }
}

/// Whether every character of `s` is a decimal digit.
pub open spec fn all_digits(s: Seq<char>) -> bool {
    forall|i: int| 0 <= i < s.len() ==> is_digit(#[trigger] s[i])
}

/// Rendering the value of a digit character gives the character back.
pub proof fn lemma_digit_char_inverse(c: char)
    requires
        is_digit(c),
    ensures
        digit_char(char_digit(c)) == c,
{
    let u = c as u32;
    vstd::utf8::char_u32_cast(c, u);
    let d = digit_char(char_digit(c));
    assert(d as u32 == u);
    vstd::utf8::char_u32_cast(d, u);
}

proof fn lemma_digits_val_positive(s: Seq<char>)
    requires
        all_digits(s),
        s.len() > 0,
        s[0] != '0',
    ensures
        digits_val(s) >= 1,
    decreases s.len(),
{
    if s.len() == 1 {
        assert(s.last() == s[0]);
        assert(is_digit(s[0]));
        if s[0] as u32 == 48 {
            vstd::utf8::char_u32_cast(s[0], 48);
            vstd::utf8::char_u32_cast('0', 48);
            assert(s[0] == '0');
        }
        assert(char_digit(s[0]) >= 1);
    } else {
        assert(s.drop_last()[0] == s[0]);
        assert(forall|i: int|
            0 <= i < s.drop_last().len() ==> is_digit(#[trigger] s.drop_last()[i]));
        lemma_digits_val_positive(s.drop_last());
        assert(s.last() == s[s.len() - 1]);
        assert(is_digit(s[s.len() - 1]));
    }
}

/// Rendering the value of a digit string gives the string back, provided the
/// string is canonical: non-empty and without a leading zero (except for the
/// single digit `0`).
pub proof fn lemma_u64_string_of_digits(s: Seq<char>)
    requires
        all_digits(s),
        s.len() > 0,
        s.len() > 1 ==> s[0] != '0',
    ensures
        spec_u64_string(digits_val(s)) == s,
    decreases s.len(),
{
    if s.len() == 1 {
        assert(s.last() == s[0]);
        assert(is_digit(s[0]));
        assert(digits_val(s.drop_last()) == 0);
        assert(digits_val(s) == char_digit(s[0]));
        assert(digits_val(s) < 10);
        lemma_digit_char_inverse(s[0]);
        assert(spec_u64_string(digits_val(s)) =~= s);
    } else {
        let front = s.drop_last();
        let d = char_digit(s.last()) as nat;
        assert(front[0] == s[0]);
        assert(forall|i: int| 0 <= i < front.len() ==> is_digit(#[trigger] front[i]));
        lemma_digits_val_positive(front);
        let a = digits_val(front);
        assert(digits_val(s) == a * 10 + d);
        assert(a >= 1);
        assert(a * 10 >= 10) by (nonlinear_arith)
            requires
                a >= 1,
        ;
        assert(digits_val(s) >= 10);
        assert((a * 10 + d) / 10 == a) by (nonlinear_arith)
            requires
                d < 10,
        ;
        assert((a * 10 + d) % 10 == d) by (nonlinear_arith)
            requires
                d < 10,
        ;
        lemma_u64_string_of_digits(front);
        lemma_digit_char_inverse(s.last());
        assert(spec_u64_string(digits_val(s)) =~= s);
    }
}

/// The `k`-th power of ten.
pub open spec fn pow10(k: nat) -> nat
    decreases k,
{
    if k == 0 {
        1
    } else {
        10 * pow10((k - 1) as nat)
    }
}

pub proof fn lemma_pow10_monotone(a: nat, b: nat)
    requires
        a <= b,
    ensures
        pow10(a) <= pow10(b),
    decreases b,
{
    if a < b {
        lemma_pow10_monotone(a, (b - 1) as nat);
        assert(pow10((b - 1) as nat) >= 1) by {
            lemma_pow10_monotone(0, (b - 1) as nat);
        }
    }
}

/// A run of `k` digits has a value below the `k`-th power of ten.
pub proof fn lemma_digits_val_bound(s: Seq<char>)
    requires
        all_digits(s),
    ensures
        digits_val(s) < pow10(s.len()),
    decreases s.len(),
{
    if s.len() > 0 {
        assert(forall|i: int|
            0 <= i < s.drop_last().len() ==> is_digit(#[trigger] s.drop_last()[i]));
        lemma_digits_val_bound(s.drop_last());
        assert(is_digit(s.last()));
    }
}

/// Extending a digit run on the right multiplies its value by ten and adds
/// the new digit.
pub proof fn lemma_digits_val_take_step(s: Seq<char>, k: int)
    requires
        0 <= k < s.len(),
        is_digit(s[k]),
    ensures
        digits_val(s.take(k + 1)) == digits_val(s.take(k)) * 10 + char_digit(s[k]),
{
    assert(s.take(k + 1).drop_last() =~= s.take(k));
    assert(s.take(k + 1).last() == s[k]);
}

/// The value of a digit run is at least the value of any of its prefixes.
pub proof fn lemma_digits_val_prefix_bound(s: Seq<char>, k: int)
    requires
        all_digits(s),
        0 <= k <= s.len(),
    ensures
        digits_val(s) >= digits_val(s.take(k)),
    decreases s.len() - k,
{
    if k < s.len() {
        lemma_digits_val_take_step(s, k);
        assert(digits_val(s.take(k + 1)) >= digits_val(s.take(k))) by {
            assert(digits_val(s.take(k)) * 10 >= digits_val(s.take(k))) by (nonlinear_arith);
            assert(is_digit(s[k]));
        }
        lemma_digits_val_prefix_bound(s, k + 1);
    } else {
        assert(s.take(k) =~= s);
    }
}

/// Whether `c` is a whitespace character: the Unicode `White_Space` set,
/// as `char::is_whitespace` recognizes it.
pub open spec fn is_space_char(c: char) -> bool {
    let u = c as u32;
    (0x09 <= u && u <= 0x0D) || u == 0x20 || u == 0x85 || u == 0xA0 || u == 0x1680 || (0x2000 <= u
        && u <= 0x200A) || u == 0x2028 || u == 0x2029 || u == 0x202F || u == 0x205F || u == 0x3000
}

/// Whitespace test over the same set as `is_space_char`.
pub fn is_space(c: char) -> (b: bool)
    ensures
        b == is_space_char(c),
{
    let u = c as u32;
    (0x09 <= u && u <= 0x0D) || u == 0x20 || u == 0x85 || u == 0xA0 || u == 0x1680 || (0x2000 <= u
        && u <= 0x200A) || u == 0x2028 || u == 0x2029 || u == 0x202F || u == 0x205F || u == 0x3000
}

/// Strict lexicographic order on character sequences, by Unicode scalar
/// value.  This coincides with the byte order of the UTF-8 encodings.
pub open spec fn lex_lt(a: Seq<char>, b: Seq<char>) -> bool
    decreases a.len(),
{
    if b.len() == 0 {
        false
    } else if a.len() == 0 {
        true
    } else if (a[0] as u32) < (b[0] as u32) {
        true
    } else if a[0] == b[0] {
        lex_lt(a.skip(1), b.skip(1))
    } else {
        false
    }
}

/// Two distinct sequences are lexicographically comparable.
pub proof fn lemma_lex_connex(a: Seq<char>, b: Seq<char>)
    requires
        a != b,
    ensures
        lex_lt(a, b) || lex_lt(b, a),
    decreases a.len(),
{
    if b.len() == 0 {
        if a.len() == 0 {
            assert(a =~= b);
        }
    } else if a.len() == 0 {
    } else if (a[0] as u32) < (b[0] as u32) {
    } else if a[0] == b[0] {
        if a.skip(1) == b.skip(1) {
            assert(a.skip(1).len() == b.skip(1).len());
            assert(a.len() == b.len());
            assert forall|i: int| 0 <= i < a.len() implies a[i] == b[i] by {
                if i > 0 {
                    assert(a.skip(1)[i - 1] == b.skip(1)[i - 1]);
                }
            }
            assert(a =~= b);
        } else {
            lemma_lex_connex(a.skip(1), b.skip(1));
        }
    } else {
        assert((b[0] as u32) < (a[0] as u32) || (a[0] as u32) == (b[0] as u32));
        if (a[0] as u32) == (b[0] as u32) {
            assert(a[0] == b[0]) by {
                vstd::utf8::char_u32_cast(a[0], a[0] as u32);
                vstd::utf8::char_u32_cast(b[0], b[0] as u32);
            }
        }
    }
}

/// Lexicographic order is irreflexive and asymmetric.
pub proof fn lemma_lex_asymmetric(a: Seq<char>, b: Seq<char>)
    requires
        lex_lt(a, b),
    ensures
        !lex_lt(b, a),
    decreases a.len(),
{
    if b.len() == 0 {
    } else if a.len() == 0 {
    } else if (a[0] as u32) < (b[0] as u32) {
    } else if a[0] == b[0] {
        lemma_lex_asymmetric(a.skip(1), b.skip(1));
    }
}

/// Lexicographic order is transitive.
pub proof fn lemma_lex_transitive(a: Seq<char>, b: Seq<char>, c: Seq<char>)
    requires
        lex_lt(a, b),
        lex_lt(b, c),
    ensures
        lex_lt(a, c),
    decreases a.len(),
{
    if a.len() == 0 {
        assert(c.len() > 0);
    } else if b.len() == 0 {
    } else if c.len() == 0 {
    } else {
        if a[0] == b[0] && b[0] == c[0] {
            lemma_lex_transitive(a.skip(1), b.skip(1), c.skip(1));
        }
    }
}

/// Compares two character vectors lexicographically.
pub fn lex_less(a: &Vec<char>, b: &Vec<char>) -> (r: bool)
    ensures
        r == lex_lt(a@, b@),
{
    let mut i: usize = 0;
    proof {
        assert(a@.skip(0) =~= a@);
        assert(b@.skip(0) =~= b@);
    }
    loop
        invariant
            i <= a.len(),
            i <= b.len(),
            lex_lt(a@, b@) == lex_lt(a@.skip(i as int), b@.skip(i as int)),
        decreases a.len() - i,
    {
        if i >= b.len() {
            proof {
                assert(b@.skip(i as int).len() == 0);
            }
            return false;
        }
        if i >= a.len() {
            proof {
                assert(a@.skip(i as int).len() == 0);
                assert(b@.skip(i as int).len() > 0);
            }
            return true;
        }
        let ca = a[i];
        let cb = b[i];
        proof {
            assert(a@.skip(i as int)[0] == a@[i as int]);
            assert(b@.skip(i as int)[0] == b@[i as int]);
            assert(a@.skip(i as int).skip(1) =~= a@.skip(i as int + 1));
            assert(b@.skip(i as int).skip(1) =~= b@.skip(i as int + 1));
        }
        if (ca as u32) < (cb as u32) {
            return true;
        }
        if ca == cb {
            i = i + 1;
        } else {
            return false;
        }
    }
}

/// Whether `n` occurs as a contiguous subsequence of `h`.
pub open spec fn contains_seq(h: Seq<char>, n: Seq<char>) -> bool {
    exists|i: int| 0 <= i && i + n.len() <= h.len() && #[trigger] h.subrange(i, i + n.len()) == n
}

fn matches_at(h: &Vec<char>, n: &Vec<char>, i: usize) -> (r: bool)
    requires
        i + n@.len() <= h@.len(),
    ensures
        r == (h@.subrange(i as int, i as int + n@.len() as int) == n@),
{
    let hl = h.len();
    let mut j: usize = 0;
    while j < n.len()
        invariant
            hl == h@.len(),
            i + n@.len() <= h@.len(),
            j <= n.len(),
            forall|k: int| 0 <= k < j ==> h@[i + k] == n@[k],
        decreases n.len() - j,
    {
        proof {
            assert(i + j < h@.len());
        }
        if h[i + j] != n[j] {
            proof {
                assert(h@.subrange(i as int, i as int + n@.len() as int)[j as int] == h@[i + j]);
            }
            return false;
        }
        j = j + 1;
    }
    proof {
        assert(h@.subrange(i as int, i as int + n@.len() as int) =~= n@);
    }
    true
}

/// Substring search: whether the characters of `n` occur contiguously in `h`.
pub fn contains_chars(h: &Vec<char>, n: &Vec<char>) -> (r: bool)
    ensures
        r == contains_seq(h@, n@),
{
    if n.len() > h.len() {
        return false;
    }
    if n.len() == 0 {
        proof {
            assert(h@.subrange(0, 0 + n@.len() as int) =~= n@);
        }
        return true;
    }
    let bound = h.len() - n.len();
    let mut i: usize = 0;
    loop
        invariant
            0 < n@.len() <= h@.len(),
            bound == h@.len() - n@.len(),
            i <= bound,
            forall|k: int|
                0 <= k < i ==> #[trigger] h@.subrange(k, k + n@.len() as int) != n@,
        decreases bound - i,
    {
        if matches_at(h, n, i) {
            return true;
        }
        if i == bound {
            return false;
        }
        i = i + 1;
    }
}

} // verus!
