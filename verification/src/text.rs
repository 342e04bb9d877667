//! The grammar of cell texts: which texts stand for a missing value, an
//! integer, a decimal number or a truth value.
//!
//! Every predicate is stated on the characters of a text (`Seq<char>`), and
//! every executable recognizer is proved against its predicate.

use vstd::prelude::*;

verus! {

/// A cell is missing when it is empty or holds exactly `NA`.
pub open spec fn missing_text(s: Seq<char>) -> bool {
    s.len() == 0 || s == seq!['N', 'A']
}

/// A cell that holds a number: it is not missing and writes a
/// floating-point number.
pub open spec fn numeric_text(s: Seq<char>) -> bool {
    !missing_text(s) && float_text(s)
}

/// One of the ten decimal digits.
pub open spec fn is_digit(c: char) -> bool {
    '0' <= c && c <= '9'
}

/// A plus or a minus sign.
pub open spec fn is_sign(c: char) -> bool {
    c == '+' || c == '-'
}

/// Every character of `s` is a decimal digit.
pub open spec fn all_digits(s: Seq<char>) -> bool {
    forall|i: int| 0 <= i < s.len() ==> is_digit(#[trigger] s[i])
}

/// `s` without its leading sign, if it has one.
pub open spec fn unsigned_part(s: Seq<char>) -> Seq<char> {
    if s.len() > 0 && is_sign(s[0]) {
        s.skip(1)
    } else {
        s
    }
}

/// The number that a run of decimal digits writes.
pub open spec fn digits_value(s: Seq<char>) -> nat
    decreases s.len(),
{
    if s.len() == 0 {
        0
    } else {
        digits_value(s.drop_last()) * 10 + (s.last() as nat - '0' as nat) as nat
    }
}

/// The texts that the standard parser of 64-bit signed integers accepts: an
/// optional sign, then one or more decimal digits whose value, with the
/// sign, lies between -2^63 and 2^63 - 1.
pub open spec fn int_text(s: Seq<char>) -> bool {
    let body = unsigned_part(s);
    &&& body.len() > 0
    &&& all_digits(body)
    &&& if s[0] == '-' {
        digits_value(body) <= 0x8000_0000_0000_0000
    } else {
        digits_value(body) <= 0x7fff_ffff_ffff_ffff
    }
}

/// The code of `c`, with the letters `A` to `Z` taken to `a` to `z`.
pub open spec fn ascii_lower(c: char) -> int {
    if 'A' <= c && c <= 'Z' {
        c as int + 32
    } else {
        c as int
    }
}

/// `s` spells `word`, whatever the case of its ASCII letters.
pub open spec fn spells(s: Seq<char>, word: Seq<char>) -> bool {
    &&& s.len() == word.len()
    &&& forall|i: int| 0 <= i < s.len() ==> ascii_lower(#[trigger] s[i]) == word[i] as int
}

/// The names of the values that are no decimal numbers.
pub open spec fn special_text(s: Seq<char>) -> bool {
    ||| spells(s, seq!['i', 'n', 'f'])
    ||| spells(s, seq!['i', 'n', 'f', 'i', 'n', 'i', 't', 'y'])
    ||| spells(s, seq!['n', 'a', 'n'])
}

/// The length of the longest run of digits at the start of `s`.
pub open spec fn digit_run(s: Seq<char>) -> nat
    decreases s.len(),
{
    if s.len() > 0 && is_digit(s[0]) {
        1 + digit_run(s.skip(1))
    } else {
        0
    }
}

/// An exponent: `e` or `E`, an optional sign, then one or more digits.
pub open spec fn exponent_text(s: Seq<char>) -> bool {
    &&& s.len() > 0
    &&& (s[0] == 'e' || s[0] == 'E')
    &&& unsigned_part(s.skip(1)).len() > 0
    &&& all_digits(unsigned_part(s.skip(1)))
}

/// The digits of a decimal number: one or more digits, or digits on one or
/// both sides of a point.
pub open spec fn mantissa_text(s: Seq<char>) -> bool {
    ||| s.len() > 0 && all_digits(s)
    ||| exists|p: int|
        #![trigger s[p]]
        0 <= p < s.len() && s[p] == '.' && s.len() > 1 && all_digits(s.take(p)) && all_digits(
            s.skip(p + 1),
        )
}

/// A decimal number: the digits, with or without a point, and after them
/// nothing or an exponent.
pub open spec fn number_text(s: Seq<char>) -> bool {
    ||| mantissa_text(s)
    ||| exists|e: int|
        #![trigger s.take(e)]
        0 < e < s.len() && mantissa_text(s.take(e)) && exponent_text(s.skip(e))
}

/// A decimal number as it is read from left to right: the longest run of
/// digits, then a point and the longest run of digits after it if a point
/// follows, at least one digit in all, then nothing or an exponent.
pub open spec fn reads_as_number(s: Seq<char>) -> bool {
    let whole = digit_run(s);
    let after_whole = s.skip(whole as int);
    let dotted = after_whole.len() > 0 && after_whole[0] == '.';
    let fraction = if dotted {
        digit_run(after_whole.skip(1))
    } else {
        0
    };
    let rest = if dotted {
        after_whole.skip(1 + fraction as int)
    } else {
        after_whole
    };
    &&& whole + fraction >= 1
    &&& (rest.len() == 0 || exponent_text(rest))
}

/// The texts that the standard parser of 64-bit floating-point numbers
/// accepts: an optional sign, then `inf`, `infinity` or `nan` in any case, or
/// a decimal number.
pub open spec fn float_text(s: Seq<char>) -> bool {
    let body = unsigned_part(s);
    special_text(body) || number_text(body)
}

/// What `str::to_lowercase` makes of a text: its lower-case form by the
/// Unicode tables that the standard library carries.
pub uninterp spec fn lowercase_of(s: Seq<char>) -> Seq<char>;

/// The four words that write a truth value.
pub open spec fn truth_word(w: Seq<char>) -> bool {
    ||| w == seq!['t', 'r', 'u', 'e']
    ||| w == seq!['f', 'a', 'l', 's', 'e']
    ||| w == seq!['1']
    ||| w == seq!['0']
}

/// A text writes a truth value when its lower-case form is one of the four
/// words.
pub open spec fn bool_text(s: Seq<char>) -> bool {
    truth_word(lowercase_of(s))
}

/// `needle` occurs in `hay` as a run of consecutive characters.
pub open spec fn has_infix(hay: Seq<char>, needle: Seq<char>) -> bool {
    exists|k: int|
        0 <= k && k + needle.len() <= hay.len() && #[trigger] hay.subrange(
            k,
            k + needle.len(),
        ) == needle
}

/// Appending digits never lowers the value: every prefix of a run of digits
/// writes a number no greater than the whole run.
pub proof fn lemma_digits_value_grows(s: Seq<char>, k: int)
    requires
        0 <= k <= s.len(),
    ensures
        digits_value(s.take(k)) <= digits_value(s),
    decreases s.len(),
{
    if k == s.len() {
        assert(s.take(k) =~= s);
    } else {
        lemma_digits_value_grows(s.drop_last(), k);
        assert(s.drop_last().take(k) =~= s.take(k));
    }
}

/// The longest run of digits at the start of `s` holds digits only, and ends
/// at the end of `s` or before a character that is no digit.
pub proof fn lemma_digit_run_ends(s: Seq<char>)
    ensures
        digit_run(s) <= s.len(),
        all_digits(s.take(digit_run(s) as int)),
        digit_run(s) < s.len() ==> !is_digit(s[digit_run(s) as int]),
    decreases s.len(),
{
    if s.len() > 0 && is_digit(s[0]) {
        let rest = s.skip(1);
        lemma_digit_run_ends(rest);
        let run = digit_run(s) as int;
        assert forall|i: int| 0 <= i < s.take(run).len() implies is_digit(
            #[trigger] s.take(run)[i],
        ) by {
            if i > 0 {
                assert(rest.take(run - 1)[i - 1] == s[i]);
            }
        }
        if run < s.len() {
            assert(rest[run - 1] == s[run]);
        }
    }
}

/// A run of digits that ends at the end of `s` or before a character that is
/// no digit is the longest run of digits at the start of `s`.
pub proof fn lemma_digit_run_is(s: Seq<char>, k: int)
    requires
        0 <= k <= s.len(),
        all_digits(s.take(k)),
        k < s.len() ==> !is_digit(s[k]),
    ensures
        digit_run(s) == k,
    decreases k,
{
    if k > 0 {
        assert(s.take(k)[0] == s[0]);
        let rest = s.skip(1);
        assert forall|i: int| 0 <= i < rest.take(k - 1).len() implies is_digit(
            #[trigger] rest.take(k - 1)[i],
        ) by {
            assert(rest.take(k - 1)[i] == s.take(k)[i + 1]);
        }
        if k - 1 < rest.len() {
            assert(rest[k - 1] == s[k]);
        }
        lemma_digit_run_is(rest, k - 1);
    }
}

/// What reads as a number from left to right is a decimal number.
proof fn lemma_read_number_is_number(s: Seq<char>)
    requires
        reads_as_number(s),
    ensures
        number_text(s),
{
    lemma_digit_run_ends(s);
    let a = digit_run(s) as int;
    let after = s.skip(a);
    let dotted = after.len() > 0 && after[0] == '.';
    if !dotted {
        if after.len() == 0 {
            assert(s.take(a) =~= s);
        } else {
            assert(s.take(a).len() > 0);
        }
    } else {
        let tail = after.skip(1);
        lemma_digit_run_ends(tail);
        let f = digit_run(tail) as int;
        let b = a + 1 + f;
        let m = s.take(b);
        assert(after[0] == s[a]);
        assert(m[a] == '.');
        assert(m.take(a) =~= s.take(a));
        assert(m.skip(a + 1) =~= tail.take(f));
        assert(after.skip(1 + f) =~= s.skip(b));
        assert(mantissa_text(m));
        if s.skip(b).len() == 0 {
            assert(m =~= s);
        }
    }
}

/// A text whose digits stand before position `e` and that goes on from `e`
/// with nothing or an exponent reads as a number from left to right.
proof fn lemma_number_reads_as_number(s: Seq<char>, e: int)
    requires
        0 <= e <= s.len(),
        mantissa_text(s.take(e)),
        e == s.len() || exponent_text(s.skip(e)),
    ensures
        reads_as_number(s),
{
    let m = s.take(e);
    if e < s.len() {
        assert(s.skip(e)[0] == s[e]);
        assert(!is_digit(s[e]) && s[e] != '.');
    }
    if m.len() > 0 && all_digits(m) {
        lemma_digit_run_is(s, e);
    } else {
        let p = choose|p: int|
            #![trigger m[p]]
            0 <= p < m.len() && m[p] == '.' && m.len() > 1 && all_digits(m.take(p)) && all_digits(
                m.skip(p + 1),
            );
        assert(m[p] == s[p]);
        assert(m.take(p) =~= s.take(p));
        lemma_digit_run_is(s, p);
        let after = s.skip(p);
        assert(after[0] == s[p]);
        let tail = after.skip(1);
        assert(tail.take(e - p - 1) =~= m.skip(p + 1));
        if e - p - 1 < tail.len() {
            assert(tail[e - p - 1] == s[e]);
        }
        lemma_digit_run_is(tail, e - p - 1);
        assert(after.skip(1 + (e - p - 1)) =~= s.skip(e));
    }
}

/// The two ways to say what a decimal number is say the same.
pub proof fn lemma_number_grammar(s: Seq<char>)
    ensures
        number_text(s) == reads_as_number(s),
{
    if reads_as_number(s) {
        lemma_read_number_is_number(s);
    }
    if number_text(s) {
        if mantissa_text(s) {
            assert(s.take(s.len() as int) =~= s);
            lemma_number_reads_as_number(s, s.len() as int);
        } else {
            let e = choose|e: int|
                #![trigger s.take(e)]
                0 < e < s.len() && mantissa_text(s.take(e)) && exponent_text(s.skip(e));
            lemma_number_reads_as_number(s, e);
        }
    }
}

/// Every text that writes an integer also writes a floating-point number.
pub proof fn lemma_int_is_float(s: Seq<char>)
    requires
        int_text(s),
    ensures
        float_text(s),
{
    let body = unsigned_part(s);
    assert(mantissa_text(body));
}

/// A missing cell writes no number of either kind.
pub proof fn lemma_missing_is_no_number(s: Seq<char>)
    requires
        missing_text(s),
    ensures
        !int_text(s),
        !float_text(s),
{
    lemma_number_grammar(unsigned_part(s));
    if s.len() == 0 {
        assert(unsigned_part(s) =~= s);
        assert(digit_run(s) == 0);
    } else {
        assert(s == seq!['N', 'A']);
        assert(s[0] == 'N' && s[1] == 'A');
        assert(unsigned_part(s) == s);
        assert(!is_digit(s[0]));
        assert(digit_run(s) == 0);
        assert(s.skip(0) =~= s);
    }
}

/// Calls `str::to_lowercase`. The contract only names the result: the same
/// characters always give the same lower-case text.
#[verifier::external_body]
pub(crate) fn lowercase(s: &str) -> (out: String)
    ensures
        out@ == lowercase_of(s@),
{
    s.to_lowercase()
}

/// The characters of `s`, in order.
pub fn chars_of(s: &str) -> (out: Vec<char>)
    ensures
        out@ == s@,
{
    let mut out: Vec<char> = Vec::new();
    for c in it: s.chars()
        invariant
            out@ == it.seq().take(it.index() as int),
            it.seq() == s@,
    {
        out.push(c);
    }
    out
}

/// Tells whether the characters are those of a missing cell.
pub fn chars_are_missing(cs: &Vec<char>) -> (r: bool)
    ensures
        r == missing_text(cs@),
{
    let r = cs.len() == 0 || (cs.len() == 2 && cs[0] == 'N' && cs[1] == 'A');
    proof {
        if cs.len() == 2 && cs[0] == 'N' && cs[1] == 'A' {
            assert(cs@ =~= seq!['N', 'A']);
        }
    }
    r
}

/// Tells whether a cell is missing.
pub fn is_missing(s: &str) -> (r: bool)
    ensures
        r == missing_text(s@),
{
    let cs = chars_of(s);
    chars_are_missing(&cs)
}

/// Tells whether `c` is a decimal digit.
fn char_is_digit(c: char) -> (r: bool)
    ensures
        r == is_digit(c),
{
    c >= '0' && c <= '9'
}

/// The value of a decimal digit.
fn digit_of(c: char) -> (d: u64)
    requires
        is_digit(c),
    ensures
        d == c as nat - '0' as nat,
        d <= 9,
{
    (c as u64) - 48
}

/// Tells whether the characters write a 64-bit signed integer.
pub fn chars_are_int(cs: &Vec<char>) -> (r: bool)
    ensures
        r == int_text(cs@),
{
    let n = cs.len();
    if n == 0 {
        return false;
    }
    let negative = cs[0] == '-';
    let start: usize = if cs[0] == '+' || cs[0] == '-' {
        1
    } else {
        0
    };
    let ghost body = unsigned_part(cs@);
    assert(body =~= cs@.skip(start as int));
    if start == n {
        return false;
    }
    let limit: u64 = if negative {
        0x8000_0000_0000_0000
    } else {
        0x7fff_ffff_ffff_ffff
    };
    let mut acc: u64 = 0;
    let mut i: usize = start;
    while i < n
        invariant
            start <= i <= n,
            n == cs.len(),
            body == cs@.skip(start as int),
            body == unsigned_part(cs@),
            limit == if cs@[0] == '-' {
                0x8000_0000_0000_0000u64
            } else {
                0x7fff_ffff_ffff_ffffu64
            },
            all_digits(body.take(i - start)),
            acc == digits_value(body.take(i - start)),
            acc <= limit,
            limit >= 9,
        decreases n - i,
    {
        let c = cs[i];
        assert(body[i - start] == c);
        if !char_is_digit(c) {
            return false;
        }
        let d = digit_of(c);
        assert(body.take(i - start + 1).drop_last() =~= body.take(i - start));
        assert(digits_value(body.take(i - start + 1)) == acc * 10 + d);
        if acc > (limit - d) / 10 {
            proof {
                if all_digits(body) {
                    lemma_digits_value_grows(body, i - start + 1);
                }
            }
            return false;
        }
        acc = acc * 10 + d;
        i += 1;
    }
    assert(body.take(n - start) =~= body);
    true
}

/// Tells whether a text writes a 64-bit signed integer.
pub fn parses_as_int(s: &str) -> (r: bool)
    ensures
        r == int_text(s@),
{
    let cs = chars_of(s);
    chars_are_int(&cs)
}

/// The code of `c`.
fn code_of(c: char) -> (code: u32)
    ensures
        code == c as int,
{
    c as u32
}

/// The code of `c`, with the letters `A` to `Z` taken to `a` to `z`.
fn lower_code(c: char) -> (code: u32)
    ensures
        code == ascii_lower(c),
{
    if c >= 'A' && c <= 'Z' {
        (c as u32) + 32
    } else {
        c as u32
    }
}

/// Tells whether the characters of `cs` from `from` on spell `word`.
fn tail_spells(cs: &Vec<char>, from: usize, word: &[char]) -> (r: bool)
    requires
        from <= cs.len(),
    ensures
        r == spells(cs@.skip(from as int), word@),
{
    let n = cs.len();
    if n - from != word.len() {
        return false;
    }
    let ghost tail = cs@.skip(from as int);
    let mut i: usize = 0;
    while i < word.len()
        invariant
            from <= n,
            n == cs.len(),
            n - from == word.len(),
            i <= word.len(),
            tail == cs@.skip(from as int),
            forall|j: int| 0 <= j < i ==> ascii_lower(#[trigger] tail[j]) == word@[j] as int,
        decreases word.len() - i,
    {
        assert(tail[i as int] == cs@[from + i]);
        if lower_code(cs[from + i]) != code_of(word[i]) {
            return false;
        }
        i += 1;
    }
    true
}

/// The index of the first character at or after `from` that is no digit.
fn skip_digits(cs: &Vec<char>, from: usize) -> (to: usize)
    requires
        from <= cs.len(),
    ensures
        from <= to <= cs.len(),
        to - from == digit_run(cs@.skip(from as int)),
        all_digits(cs@.subrange(from as int, to as int)),
        to < cs.len() ==> !is_digit(cs@[to as int]),
{
    let n = cs.len();
    let mut i: usize = from;
    while i < n && char_is_digit(cs[i])
        invariant
            from <= i <= n,
            n == cs.len(),
            digit_run(cs@.skip(from as int)) == (i - from) + digit_run(cs@.skip(i as int)),
            all_digits(cs@.subrange(from as int, i as int)),
        decreases n - i,
    {
        assert(cs@.skip(i as int).skip(1) =~= cs@.skip(i + 1));
        assert(cs@.skip(i as int)[0] == cs@[i as int]);
        i += 1;
    }
    proof {
        if i < n {
            assert(cs@.skip(i as int)[0] == cs@[i as int]);
        }
    }
    i
}

/// Tells whether the characters of `cs` from `from` on write an exponent.
fn tail_is_exponent(cs: &Vec<char>, from: usize) -> (r: bool)
    requires
        from < cs.len(),
    ensures
        r == exponent_text(cs@.skip(from as int)),
{
    let n = cs.len();
    let ghost tail = cs@.skip(from as int);
    assert(tail[0] == cs@[from as int]);
    if !(cs[from] == 'e' || cs[from] == 'E') {
        return false;
    }
    let signed = from + 1 < n && (cs[from + 1] == '+' || cs[from + 1] == '-');
    let p: usize = if signed {
        from + 2
    } else {
        from + 1
    };
    proof {
        assert(tail.skip(1) =~= cs@.skip(from + 1));
        if from + 1 < n {
            assert(tail.skip(1)[0] == cs@[from + 1]);
        }
        assert(unsigned_part(tail.skip(1)) =~= cs@.skip(p as int));
    }
    if p == n {
        return false;
    }
    let q = skip_digits(cs, p);
    proof {
        if q == n {
            assert(cs@.subrange(p as int, q as int) =~= cs@.skip(p as int));
        } else {
            assert(cs@.skip(p as int)[q - p] == cs@[q as int]);
        }
    }
    q == n
}

/// Tells whether the characters of `cs` from `from` on write a decimal number.
fn tail_is_number(cs: &Vec<char>, from: usize) -> (r: bool)
    requires
        from <= cs.len(),
    ensures
        r == reads_as_number(cs@.skip(from as int)),
{
    let n = cs.len();
    let ghost tail = cs@.skip(from as int);
    let a = skip_digits(cs, from);
    let dotted = a < n && cs[a] == '.';
    let b = if dotted {
        skip_digits(cs, a + 1)
    } else {
        a
    };
    proof {
        assert(tail.skip(a - from) =~= cs@.skip(a as int));
        if a < n {
            assert(cs@.skip(a as int)[0] == cs@[a as int]);
        }
        if dotted {
            assert(cs@.skip(a as int).skip(1) =~= cs@.skip(a + 1));
            assert(cs@.skip(a as int).skip(1 + (b - (a + 1))) =~= cs@.skip(b as int));
        }
    }
    let digits = if dotted {
        b - from - 1
    } else {
        b - from
    };
    if digits == 0 {
        return false;
    }
    if b == n {
        return true;
    }
    tail_is_exponent(cs, b)
}

/// Tells whether the characters write a 64-bit floating-point number.
pub fn chars_are_float(cs: &Vec<char>) -> (r: bool)
    ensures
        r == float_text(cs@),
{
    let n = cs.len();
    let start: usize = if n > 0 && (cs[0] == '+' || cs[0] == '-') {
        1
    } else {
        0
    };
    assert(unsigned_part(cs@) =~= cs@.skip(start as int));
    let inf = ['i', 'n', 'f'];
    let infinity = ['i', 'n', 'f', 'i', 'n', 'i', 't', 'y'];
    let nan = ['n', 'a', 'n'];
    assert(inf@ =~= seq!['i', 'n', 'f']);
    assert(infinity@ =~= seq!['i', 'n', 'f', 'i', 'n', 'i', 't', 'y']);
    assert(nan@ =~= seq!['n', 'a', 'n']);
    if tail_spells(cs, start, inf.as_slice()) || tail_spells(cs, start, infinity.as_slice())
        || tail_spells(cs, start, nan.as_slice()) {
        return true;
    }
    proof {
        lemma_number_grammar(cs@.skip(start as int));
    }
    tail_is_number(cs, start)
}

/// Tells whether a text writes a 64-bit floating-point number.
pub fn parses_as_float(s: &str) -> (r: bool)
    ensures
        r == float_text(s@),
{
    let cs = chars_of(s);
    chars_are_float(&cs)
}

/// Tells whether a cell holds a number.
pub fn is_numeric(s: &str) -> (r: bool)
    ensures
        r == numeric_text(s@),
{
    let cs = chars_of(s);
    !chars_are_missing(&cs) && chars_are_float(&cs)
}

/// Tells whether `cs` holds exactly the characters of `word`.
fn chars_equal(cs: &Vec<char>, word: &[char]) -> (r: bool)
    ensures
        r == (cs@ == word@),
{
    if cs.len() != word.len() {
        return false;
    }
    let mut i: usize = 0;
    while i < cs.len()
        invariant
            i <= cs.len(),
            cs.len() == word.len(),
            forall|j: int| 0 <= j < i ==> cs@[j] == word@[j],
        decreases cs.len() - i,
    {
        if cs[i] != word[i] {
            return false;
        }
        i += 1;
    }
    assert(cs@ =~= word@);
    true
}

/// Tells whether `w`, a text already in lower case, is one of the four words
/// that write a truth value.
pub fn is_truth_word(w: &str) -> (r: bool)
    ensures
        r == truth_word(w@),
{
    let cs = chars_of(w);
    let yes = ['t', 'r', 'u', 'e'];
    let no = ['f', 'a', 'l', 's', 'e'];
    let one = ['1'];
    let zero = ['0'];
    assert(yes@ =~= seq!['t', 'r', 'u', 'e']);
    assert(no@ =~= seq!['f', 'a', 'l', 's', 'e']);
    assert(one@ =~= seq!['1']);
    assert(zero@ =~= seq!['0']);
    chars_equal(&cs, yes.as_slice()) || chars_equal(&cs, no.as_slice()) || chars_equal(
        &cs,
        one.as_slice(),
    ) || chars_equal(&cs, zero.as_slice())
}

/// Tells whether a text writes a truth value, in whatever case.
pub fn parses_as_bool(s: &str) -> (r: bool)
    ensures
        r == bool_text(s@),
{
    let lower = lowercase(s);
    is_truth_word(lower.as_str())
}

/// Tells whether `needle` stands in `hay` at position `at`.
fn occurs_at(hay: &Vec<char>, at: usize, needle: &[char]) -> (r: bool)
    requires
        at + needle.len() <= hay.len(),
    ensures
        r == (hay@.subrange(at as int, at + needle.len()) == needle@),
{
    let ghost window = hay@.subrange(at as int, at + needle.len());
    let mut i: usize = 0;
    while i < needle.len()
        invariant
            i <= needle.len(),
            at + needle.len() <= hay.len(),
            window == hay@.subrange(at as int, at + needle.len()),
            forall|j: int| 0 <= j < i ==> window[j] == needle@[j],
        decreases needle.len() - i,
    {
        assert(window[i as int] == hay@[at + i]);
        if hay[at + i] != needle[i] {
            return false;
        }
        i += 1;
    }
    assert(window =~= needle@);
    true
}

/// Tells whether `needle` occurs in `hay`.
pub fn contains_chars(hay: &Vec<char>, needle: &[char]) -> (r: bool)
    ensures
        r == has_infix(hay@, needle@),
{
    let m = needle.len();
    if m > hay.len() {
        return false;
    }
    let last = hay.len() - m;
    let mut k: usize = 0;
    while k < last
        invariant
            m == needle.len(),
            m <= hay.len(),
            last == hay.len() - m,
            k <= last,
            forall|j: int| 0 <= j < k ==> #[trigger] hay@.subrange(j, j + m) != needle@,
        decreases last - k,
    {
        if occurs_at(hay, k, needle) {
            return true;
        }
        k += 1;
    }
    occurs_at(hay, last, needle)
}

} // verus!
