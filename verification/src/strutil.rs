//! Verified string helpers: lexicographic comparison by code point, decimal
//! rendering of integers, space padding, whitespace trimming, and the
//! line-indenting filter used by the summary report.

use vstd::prelude::*;
use vstd::string::StrSliceExecFns;
use vstd::string::StringExecFns;

verus! {

/// Three-way lexicographic comparison of two character sequences by code
/// point: -1, 0 or 1.
pub open spec fn lex_cmp(a: Seq<char>, b: Seq<char>) -> int
    decreases a.len(),
{
    if a.len() == 0 && b.len() == 0 {
        0
    } else if a.len() == 0 {
        -1
    } else if b.len() == 0 {
        1
    } else if (a[0] as u32) < (b[0] as u32) {
        -1
    } else if (b[0] as u32) < (a[0] as u32) {
        1
    } else {
        lex_cmp(a.drop_first(), b.drop_first())
    }
}

pub proof fn lemma_lex_cmp_range(a: Seq<char>, b: Seq<char>)
    ensures
        -1 <= lex_cmp(a, b) <= 1,
    decreases a.len(),
{
    if a.len() != 0 && b.len() != 0 && a[0] as u32 == b[0] as u32 {
        lemma_lex_cmp_range(a.drop_first(), b.drop_first());
    }
}

/// Comparison is antisymmetric: swapping the operands flips the sign.
pub proof fn lemma_lex_cmp_antisym(a: Seq<char>, b: Seq<char>)
    ensures
        lex_cmp(b, a) == -lex_cmp(a, b),
    decreases a.len(),
{
    if a.len() != 0 && b.len() != 0 && a[0] as u32 == b[0] as u32 {
        lemma_lex_cmp_antisym(a.drop_first(), b.drop_first());
    }
}

/// Comparison is transitive on the "less or equal" side.
pub proof fn lemma_lex_cmp_trans(a: Seq<char>, b: Seq<char>, c: Seq<char>)
    requires
        lex_cmp(a, b) <= 0,
        lex_cmp(b, c) <= 0,
    ensures
        lex_cmp(a, c) <= 0,
    decreases a.len(),
{
    if a.len() != 0 {
        if a[0] as u32 == b[0] as u32 && b[0] as u32 == c[0] as u32 {
            lemma_lex_cmp_trans(a.drop_first(), b.drop_first(), c.drop_first());
        }
    }
}

/// Dropping a common prefix does not change the comparison.
pub proof fn lemma_lex_cmp_skip(a: Seq<char>, b: Seq<char>, i: int)
    requires
        0 <= i <= a.len(),
        i <= b.len(),
        forall|j: int| 0 <= j < i ==> a[j] as u32 == b[j] as u32,
    ensures
        lex_cmp(a, b) == lex_cmp(a.skip(i), b.skip(i)),
    decreases i,
{
    if i == 0 {
        assert(a.skip(0) =~= a);
        assert(b.skip(0) =~= b);
    } else {
        assert(a[0] as u32 == b[0] as u32);
        assert(forall|j: int| 0 <= j < i - 1 ==> a.drop_first()[j] as u32 == b.drop_first()[j] as u32);
        lemma_lex_cmp_skip(a.drop_first(), b.drop_first(), i - 1);
        assert(a.drop_first().skip(i - 1) =~= a.skip(i));
        assert(b.drop_first().skip(i - 1) =~= b.skip(i));
    }
}

/// Sequences that compare equal are equal: code points determine characters.
pub proof fn lemma_lex_cmp_zero(a: Seq<char>, b: Seq<char>)
    requires
        lex_cmp(a, b) == 0,
    ensures
        a == b,
    decreases a.len(),
{
    if a.len() == 0 {
        assert(a =~= b);
    } else {
        assert(a[0] as u32 == b[0] as u32);
        vstd::utf8::char_u32_cast(a[0], a[0] as u32);
        vstd::utf8::char_u32_cast(b[0], b[0] as u32);
        assert(a[0] == b[0]);
        lemma_lex_cmp_zero(a.drop_first(), b.drop_first());
        assert forall|j: int| 0 <= j < a.len() implies a[j] == b[j] by {
            if j > 0 {
                assert(a.drop_first()[j - 1] == b.drop_first()[j - 1]);
            }
        }
        assert(a.drop_first().len() == b.drop_first().len());
        assert(a =~= b);
    }
}

/// Every sequence compares equal to itself.
pub proof fn lemma_lex_cmp_self(a: Seq<char>)
    ensures
        lex_cmp(a, a) == 0,
    decreases a.len(),
{
    if a.len() != 0 {
        lemma_lex_cmp_self(a.drop_first());
    }
}

/// Three-way comparison of two strings by code point.
pub fn str_cmp(a: &str, b: &str) -> (r: i32)
    ensures
        r == lex_cmp(a@, b@),
{
    let la = a.unicode_len();
    let lb = b.unicode_len();
    let mut i: usize = 0;
    loop
        invariant
            i <= la,
            i <= lb,
            la == a@.len(),
            lb == b@.len(),
            forall|j: int| 0 <= j < i ==> a@[j] as u32 == b@[j] as u32,
        decreases la - i,
    {
        if i < la && i < lb {
            let ca = a.get_char(i);
            let cb = b.get_char(i);
            if (ca as u32) < (cb as u32) {
                proof {
                    lemma_lex_cmp_skip(a@, b@, i as int);
                }
                return -1;
            }
            if (cb as u32) < (ca as u32) {
                proof {
                    lemma_lex_cmp_skip(a@, b@, i as int);
                }
                return 1;
            }
            i = i + 1;
        } else {
            proof {
                lemma_lex_cmp_skip(a@, b@, i as int);
            }
            if i == la && i == lb {
                return 0;
            } else if i == la {
                return -1;
            } else {
                return 1;
            }
        }
    }
}

/// The decimal digit character for a value 0..9.
pub open spec fn spec_digit(d: int) -> char {
    if d == 0 {
        '0'
    } else if d == 1 {
        '1'
    } else if d == 2 {
        '2'
    } else if d == 3 {
        '3'
    } else if d == 4 {
        '4'
    } else if d == 5 {
        '5'
    } else if d == 6 {
        '6'
    } else if d == 7 {
        '7'
    } else if d == 8 {
        '8'
    } else {
        '9'
    }
}

/// The plain decimal rendering of a non-negative integer, no padding.
pub open spec fn spec_digits(n: int) -> Seq<char>
    decreases n,
{
    if n < 10 {
        seq![spec_digit(n)]
    } else {
        spec_digits(n / 10).push(spec_digit(n % 10))
    }
}

/// One decimal digit as a string.
pub fn digit_str(d: u64) -> (r: &'static str)
    requires
        d < 10,
    ensures
        r@ == seq![spec_digit(d as int)],
{
    proof {
        reveal_strlit("0");
        reveal_strlit("1");
        reveal_strlit("2");
        reveal_strlit("3");
        reveal_strlit("4");
        reveal_strlit("5");
        reveal_strlit("6");
        reveal_strlit("7");
        reveal_strlit("8");
        reveal_strlit("9");
        assert(("0")@ =~= seq![spec_digit(0)]);
        assert(("1")@ =~= seq![spec_digit(1)]);
        assert(("2")@ =~= seq![spec_digit(2)]);
        assert(("3")@ =~= seq![spec_digit(3)]);
        assert(("4")@ =~= seq![spec_digit(4)]);
        assert(("5")@ =~= seq![spec_digit(5)]);
        assert(("6")@ =~= seq![spec_digit(6)]);
        assert(("7")@ =~= seq![spec_digit(7)]);
        assert(("8")@ =~= seq![spec_digit(8)]);
        assert(("9")@ =~= seq![spec_digit(9)]);
    }
    if d == 0 {
        "0"
    } else if d == 1 {
        "1"
    } else if d == 2 {
        "2"
    } else if d == 3 {
        "3"
    } else if d == 4 {
        "4"
    } else if d == 5 {
        "5"
    } else if d == 6 {
        "6"
    } else if d == 7 {
        "7"
    } else if d == 8 {
        "8"
    } else {
        "9"
    }
}

/// Decimal rendering of a (possibly wide) non-negative integer.
pub fn u128_string(n: u128) -> (r: String)
    ensures
        r@ == spec_digits(n as int),
    decreases n,
{
    if n < 10 {
        String::from_str(digit_str(n as u64))
    } else {
        proof {
            vstd::arithmetic::div_mod::lemma_div_is_strictly_smaller(n as int, 10);
            vstd::arithmetic::div_mod::lemma_mod_bound(n as int, 10);
        }
        let mut s = u128_string(n / 10);
        s.append(digit_str((n % 10) as u64));
        s
    }
}

/// Decimal rendering of a `u64`.
pub fn u64_string(n: u64) -> (r: String)
    ensures
        r@ == spec_digits(n as int),
{
    u128_string(n as u128)
}

/// `n` copies of a character.
pub open spec fn spec_repeat(c: char, n: int) -> Seq<char>
    decreases n,
{
    if n <= 0 {
        Seq::empty()
    } else {
        spec_repeat(c, n - 1).push(c)
    }
}

/// Shape of a repeated character sequence.
pub proof fn lemma_repeat(c: char, n: int)
    ensures
        n >= 0 ==> spec_repeat(c, n).len() == n,
        n < 0 ==> spec_repeat(c, n).len() == 0,
        forall|i: int| 0 <= i < spec_repeat(c, n).len() ==> spec_repeat(c, n)[i] == c,
    decreases n,
{
    if n > 0 {
        lemma_repeat(c, n - 1);
    }
}

/// A string of `n` spaces.
pub fn spaces(n: usize) -> (r: String)
    ensures
        r@ == spec_repeat(' ', n as int),
{
    let mut s = String::new();
    let mut i: usize = 0;
    while i < n
        invariant
            i <= n,
            s@ == spec_repeat(' ', i as int),
        decreases n - i,
    {
        s.append(" ");
        proof {
            reveal_strlit(" ");
            assert((" ")@ =~= seq![' ']);
            assert(spec_repeat(' ', i as int).push(' ') =~= spec_repeat(' ', i as int) + seq![' ']);
        }
        i = i + 1;
    }
    s
}

/// The sequence padded with spaces on the right to width `w` (unchanged when
/// already at least that wide).
pub open spec fn spec_pad_right(s: Seq<char>, w: int) -> Seq<char> {
    if s.len() >= w {
        s
    } else {
        s + spec_repeat(' ', w - s.len())
    }
}

/// Pad a string with spaces on the right to width `w` (in characters).
pub fn pad_right(s: String, w: usize) -> (r: String)
    ensures
        r@ == spec_pad_right(s@, w as int),
{
    let len = s.as_str().unicode_len();
    if len >= w {
        s
    } else {
        let pad = spaces(w - len);
        let mut s = s;
        s.append(pad.as_str());
        s
    }
}

/// Whitespace for trimming purposes.
pub open spec fn is_space(c: char) -> bool {
    c == ' ' || c == '\t' || c == '\r' || c == '\n'
}

/// Whether a character counts as whitespace.
pub fn is_space_char(c: char) -> (r: bool)
    ensures
        r == is_space(c),
{
    c == ' ' || c == '\t' || c == '\r' || c == '\n'
}

/// The sequence with leading whitespace removed.
pub open spec fn spec_trim_left(s: Seq<char>) -> Seq<char>
    decreases s.len(),
{
    if s.len() > 0 && is_space(s[0]) {
        spec_trim_left(s.drop_first())
    } else {
        s
    }
}

/// The sequence with trailing whitespace removed.
pub open spec fn spec_trim_right(s: Seq<char>) -> Seq<char>
    decreases s.len(),
{
    if s.len() > 0 && is_space(s[s.len() - 1]) {
        spec_trim_right(s.drop_last())
    } else {
        s
    }
}

/// The sequence with whitespace removed from both ends.
pub open spec fn spec_trim(s: Seq<char>) -> Seq<char> {
    spec_trim_right(spec_trim_left(s))
}

proof fn lemma_trim_left_at(s: Seq<char>, lo: int)
    requires
        0 <= lo <= s.len(),
        forall|j: int| 0 <= j < lo ==> is_space(s[j]),
        lo < s.len() ==> !is_space(s[lo]),
    ensures
        spec_trim_left(s) == s.skip(lo),
    decreases lo,
{
    if lo == 0 {
        assert(s.skip(0) =~= s);
    } else {
        assert(is_space(s[0]));
        lemma_trim_left_at(s.drop_first(), lo - 1);
        assert(s.drop_first().skip(lo - 1) =~= s.skip(lo));
    }
}

proof fn lemma_trim_right_at(s: Seq<char>, hi: int)
    requires
        0 <= hi <= s.len(),
        forall|j: int| hi <= j < s.len() ==> is_space(s[j]),
        hi > 0 ==> !is_space(s[hi - 1]),
    ensures
        spec_trim_right(s) == s.take(hi),
    decreases s.len() - hi,
{
    if hi == s.len() {
        if s.len() > 0 && is_space(s[s.len() - 1]) {
            assert(!is_space(s[hi - 1]));
        }
        assert(s.take(s.len() as int) =~= s);
    } else {
        assert(is_space(s[s.len() - 1]));
        lemma_trim_right_at(s.drop_last(), hi);
        assert(s.drop_last().take(hi) =~= s.take(hi));
    }
}

/// Trim whitespace from both ends of a string.
pub fn trim_str<'a>(s: &'a str) -> (r: &'a str)
    ensures
        r@ == spec_trim(s@),
{
    let len = s.unicode_len();
    let mut lo: usize = 0;
    while lo < len && is_space_char(s.get_char(lo))
        invariant
            lo <= len,
            len == s@.len(),
            forall|j: int| 0 <= j < lo ==> is_space(s@[j]),
        decreases len - lo,
    {
        lo = lo + 1;
    }
    proof {
        lemma_trim_left_at(s@, lo as int);
    }
    let mut hi: usize = len;
    while hi > lo && is_space_char(s.get_char(hi - 1))
        invariant
            lo <= hi <= len,
            len == s@.len(),
            forall|j: int| hi <= j < len ==> is_space(s@[j]),
        decreases hi,
    {
        hi = hi - 1;
    }
    proof {
        let t = s@.skip(lo as int);
        assert(forall|j: int| hi - lo <= j < t.len() ==> is_space(#[trigger] t[j]));
        if hi > lo {
            assert(!is_space(t[hi - lo - 1]));
        }
        lemma_trim_right_at(t, hi - lo);
        assert(t.take(hi - lo) =~= s@.subrange(lo as int, hi as int));
    }
    s.substring_char(lo, hi)
}

/// Index of the first newline in `s`, or `s.len()` when there is none.
pub open spec fn find_nl(s: Seq<char>) -> int
    decreases s.len(),
{
    if s.len() == 0 {
        0
    } else if s[0] == '\n' {
        0
    } else {
        1 + find_nl(s.drop_first())
    }
}

pub proof fn lemma_find_nl(s: Seq<char>)
    ensures
        0 <= find_nl(s) <= s.len(),
        find_nl(s) < s.len() ==> s[find_nl(s)] == '\n',
        forall|j: int| 0 <= j < find_nl(s) ==> s[j] != '\n',
    decreases s.len(),
{
    if s.len() != 0 && s[0] != '\n' {
        lemma_find_nl(s.drop_first());
        assert forall|j: int| 0 <= j < find_nl(s) implies s[j] != '\n' by {
            if j > 0 {
                assert(s.drop_first()[j - 1] != '\n');
            }
        }
    }
}

proof fn lemma_find_nl_at(s: Seq<char>, i: int)
    requires
        0 <= i <= s.len(),
        forall|j: int| 0 <= j < i ==> s[j] != '\n',
        i < s.len() ==> s[i] == '\n',
    ensures
        find_nl(s) == i,
    decreases i,
{
    if i == 0 {
    } else {
        assert(s[0] != '\n');
        lemma_find_nl_at(s.drop_first(), i - 1);
    }
}

/// The summary's line filter: split on newlines, drop lines that are blank
/// after trimming, indent each kept line by eight spaces and a dash, and
/// join the kept lines with single newlines. `first` says whether no line
/// has been kept yet.
pub open spec fn spec_indent_lines(s: Seq<char>, first: bool) -> Seq<char>
    decreases s.len(),
    via spec_indent_lines_dec
{
    if s.len() == 0 {
        Seq::empty()
    } else {
        let i = find_nl(s);
        let line = s.take(i);
        let rest = if i < s.len() {
            s.skip(i + 1)
        } else {
            Seq::empty()
        };
        let t = spec_trim(line);
        if t.len() == 0 {
            spec_indent_lines(rest, first)
        } else {
            let piece = spec_repeat(' ', 8) + ("- ")@ + t;
            if first {
                piece + spec_indent_lines(rest, false)
            } else {
                ("\n")@ + piece + spec_indent_lines(rest, false)
            }
        }
    }
}

#[via_fn]
proof fn spec_indent_lines_dec(s: Seq<char>, first: bool) {
    lemma_find_nl(s);
}

fn indent_lines_go(s: &str, first: bool) -> (r: String)
    ensures
        r@ == spec_indent_lines(s@, first),
    decreases s@.len(),
{
    let len = s.unicode_len();
    if len == 0 {
        let out = String::new();
        proof {
            assert(out@ =~= Seq::<char>::empty());
        }
        return out;
    }
    let mut i: usize = 0;
    while i < len && s.get_char(i) != '\n'
        invariant
            i <= len,
            len == s@.len(),
            forall|j: int| 0 <= j < i ==> s@[j] != '\n',
        decreases len - i,
    {
        i = i + 1;
    }
    proof {
        lemma_find_nl_at(s@, i as int);
    }
    let line = s.substring_char(0, i);
    let rest: &str = if i < len {
        s.substring_char(i + 1, len)
    } else {
        ""
    };
    proof {
        reveal_strlit("");
        assert(s@.take(i as int) =~= s@.subrange(0, i as int));
        if i < len {
            assert(s@.skip(i + 1) =~= s@.subrange(i + 1, len as int));
        } else {
            assert(("")@ =~= Seq::<char>::empty());
        }
    }
    let t = trim_str(line);
    if t.unicode_len() == 0 {
        proof {
            assert(spec_trim(line@).len() == 0);
        }
        indent_lines_go(rest, first)
    } else {
        let mut out = spaces(8);
        out.append("- ");
        out.append(t);
        let tail = indent_lines_go(rest, false);
        if first {
            out.append(tail.as_str());
            out
        } else {
            let mut out2 = String::from_str("\n");
            out2.append(out.as_str());
            out2.append(tail.as_str());
            out2
        }
    }
}

/// Indent every non-blank line of `value` with eight spaces and a dash,
/// dropping blank lines, re-joined with newlines.
pub fn indent_lines(value: String) -> (r: String)
    ensures
        r@ == spec_indent_lines(value@, true),
{
    indent_lines_go(value.as_str(), true)
}

} // verus!
