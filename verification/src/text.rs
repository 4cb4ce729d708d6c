use vstd::prelude::*;

verus! {

// ---------------------------------------------------------------------------
// Character classes
// ---------------------------------------------------------------------------
/// True of the decimal digit characters.
pub open spec fn is_digit(c: char) -> bool {
    48 <= c as u32 && c as u32 <= 57
}

/// Numeric value of a decimal digit character.
pub open spec fn digit_val(c: char) -> int {
    c as u32 - 48
}

/// The digit character for a value in 0..=9.
pub open spec fn digit_char(d: int) -> char {
    ((d + 48) as u8) as char
}

/// Space or tab: what counts towards the indent level of a line.
pub open spec fn is_blank(c: char) -> bool {
    c == ' ' || c == '\t'
}

/// The whitespace characters that trimming removes.
pub open spec fn is_ws(c: char) -> bool {
    c == ' ' || c == '\t' || c == '\n' || c == '\r' || c == '\u{b}' || c == '\u{c}'
}

// ---------------------------------------------------------------------------
// Decimal numbers
// ---------------------------------------------------------------------------
/// All characters of `s` are decimal digits.
pub open spec fn all_digits(s: Seq<char>) -> bool {
    forall|i: int| 0 <= i < s.len() ==> is_digit(s[i])
}

/// Value of a digit string read in base ten.
pub open spec fn dec_val(s: Seq<char>) -> int
    decreases s.len(),
{
    if s.len() == 0 {
        0
    } else {
        10 * dec_val(s.drop_last()) + digit_val(s.last())
    }
}

/// Decimal rendering of a non-negative number, without leading zeros.
pub open spec fn dec_str(n: int) -> Seq<char>
    decreases n,
{
    if n < 10 {
        seq![digit_char(if n < 0 { 0 } else { n })]
    } else {
        dec_str(n / 10).push(digit_char(n % 10))
    }
}

pub proof fn lemma_dec_val_nonneg(s: Seq<char>)
    requires
        all_digits(s),
    ensures
        dec_val(s) >= 0,
    decreases s.len(),
{
    if s.len() > 0 {
        assert(all_digits(s.drop_last())) by {
            assert(forall|i: int| 0 <= i < s.len() - 1 ==> s.drop_last()[i] == s[i]);
        }
        lemma_dec_val_nonneg(s.drop_last());
    }
}

/// A digit string's value only grows as more digits are read.
pub proof fn lemma_dec_val_prefix(s: Seq<char>, i: int)
    requires
        all_digits(s),
        0 <= i <= s.len(),
    ensures
        dec_val(s.take(i)) <= dec_val(s),
    decreases s.len() - i,
{
    if i < s.len() {
        assert(all_digits(s.take(i + 1))) by {
            assert(forall|k: int| 0 <= k < i + 1 ==> s.take(i + 1)[k] == s[k]);
        }
        assert(s.take(i + 1).drop_last() =~= s.take(i));
        lemma_dec_val_nonneg(s.take(i));
        assert(dec_val(s.take(i)) <= dec_val(s.take(i + 1)));
        lemma_dec_val_prefix(s, i + 1);
    } else {
        assert(s.take(i) =~= s);
    }
}

// ---------------------------------------------------------------------------
// Lexicographic order on character sequences
// ---------------------------------------------------------------------------
/// Strict lexicographic order by code point; a proper prefix comes first.
pub open spec fn lex_lt(a: Seq<char>, b: Seq<char>) -> bool
    decreases a.len(),
{
    if b.len() == 0 {
        false
    } else if a.len() == 0 {
        true
    } else if a[0] != b[0] {
        (a[0] as u32) < (b[0] as u32)
    } else {
        lex_lt(a.skip(1), b.skip(1))
    }
}

/// How `lex_lt` decides once the common prefix of length `i` is known.
pub proof fn lemma_lex_lt_common(a: Seq<char>, b: Seq<char>, i: int)
    requires
        0 <= i <= a.len(),
        i <= b.len(),
        forall|k: int| 0 <= k < i ==> a[k] == b[k],
        i == a.len() || i == b.len() || a[i] != b[i],
    ensures
        lex_lt(a, b) <==> (i == a.len() && i < b.len()) || (i < a.len() && i < b.len() && (a[i]
            as u32) < (b[i] as u32)),
    decreases i,
{
    if i == 0 {
        if a.len() > 0 && b.len() > 0 && a[0] as u32 == b[0] as u32 {
            // distinct chars with equal code points cannot happen
            assert(a[0] != b[0]);
            char_code_injective(a[0], b[0]);
        }
    } else {
        assert(a.len() > 0 && b.len() > 0 && a[0] == b[0]);
        let a1 = a.skip(1);
        let b1 = b.skip(1);
        assert(forall|k: int| 0 <= k < i - 1 ==> a1[k] == b[k + 1]);
        lemma_lex_lt_common(a1, b1, i - 1);
    }
}

/// Distinct characters have distinct code points.
proof fn char_code_injective(x: char, y: char)
    requires
        x as u32 == y as u32,
    ensures
        x == y,
{
    assert(x as u32 as char == y as u32 as char);
}

pub proof fn lemma_lex_lt_trans(a: Seq<char>, b: Seq<char>, c: Seq<char>)
    requires
        lex_lt(a, b),
        lex_lt(b, c),
    ensures
        lex_lt(a, c),
    decreases a.len(),
{
    if a.len() > 0 && b.len() > 0 && c.len() > 0 {
        if a[0] == b[0] && b[0] == c[0] {
            lemma_lex_lt_trans(a.skip(1), b.skip(1), c.skip(1));
        }
    }
}

pub proof fn lemma_lex_lt_asym(a: Seq<char>, b: Seq<char>)
    requires
        lex_lt(a, b),
    ensures
        !lex_lt(b, a),
    decreases a.len(),
{
    if a.len() > 0 && b.len() > 0 && a[0] == b[0] {
        lemma_lex_lt_asym(a.skip(1), b.skip(1));
    }
}

pub proof fn lemma_lex_connex(a: Seq<char>, b: Seq<char>)
    ensures
        lex_lt(a, b) || lex_lt(b, a) || a == b,
    decreases a.len(),
{
    if a.len() == 0 && b.len() == 0 {
        assert(a =~= b);
    } else if a.len() > 0 && b.len() > 0 {
        if a[0] == b[0] {
            let a1 = a.skip(1);
            let b1 = b.skip(1);
            lemma_lex_connex(a1, b1);
            if !lex_lt(a, b) && !lex_lt(b, a) {
                assert(a1 == b1);
                assert forall|k: int| 0 <= k < a.len() implies a[k] == b[k] by {
                    if k > 0 {
                        assert(a[k] == a1[k - 1] && b[k] == b1[k - 1]);
                    }
                }
                assert(a =~= b);
            }
        } else {
            char_code_total(a[0], b[0]);
        }
    }
}

/// Characters with distinct values have ordered code points one way or the other.
proof fn char_code_total(x: char, y: char)
    requires
        x != y,
    ensures
        (x as u32) < (y as u32) || (y as u32) < (x as u32),
{
    if x as u32 == y as u32 {
        char_code_injective(x, y);
    }
}

// ---------------------------------------------------------------------------
// Searching, prefixes, trimming, splitting: the spec side
// ---------------------------------------------------------------------------
/// Index of the first occurrence of `c` in `s`, or -1.
pub open spec fn find_idx(s: Seq<char>, c: char) -> int
    decreases s.len(),
{
    if s.len() == 0 {
        -1
    } else if s[0] == c {
        0
    } else {
        let r = find_idx(s.skip(1), c);
        if r < 0 {
            -1
        } else {
            r + 1
        }
    }
}

pub proof fn lemma_find_idx(s: Seq<char>, c: char)
    ensures
        find_idx(s, c) == -1 ==> forall|k: int| 0 <= k < s.len() ==> s[k] != c,
        find_idx(s, c) >= 0 ==> 0 <= find_idx(s, c) < s.len() && s[find_idx(s, c)] == c && forall|
            k: int,
        | 0 <= k < find_idx(s, c) ==> s[k] != c,
    decreases s.len(),
{
    if s.len() > 0 && s[0] != c {
        let s1 = s.skip(1);
        lemma_find_idx(s1, c);
        let r1 = find_idx(s1, c);
        assert(forall|k: int| 0 <= k < s1.len() ==> s1[k] == s[k + 1]);
        if r1 < 0 {
            assert forall|k: int| 0 <= k < s.len() implies s[k] != c by {
                if k > 0 {
                    assert(s[k] == s1[k - 1]);
                }
            }
        } else {
            assert(s[r1 + 1] == s1[r1]);
            assert forall|k: int| 0 <= k < r1 + 1 implies s[k] != c by {
                if k > 0 {
                    assert(s[k] == s1[k - 1]);
                }
            }
        }
    }
}

/// `p` is a prefix of `s`.
pub open spec fn has_prefix(s: Seq<char>, p: Seq<char>) -> bool {
    p.len() <= s.len() && s.take(p.len() as int) == p
}

/// `l` with one trailing carriage return removed, as line splitting does.
pub open spec fn chop_cr(l: Seq<char>) -> Seq<char> {
    if l.len() > 0 && l.last() == '\r' {
        l.drop_last()
    } else {
        l
    }
}

/// The lines of `s`: split at each newline, a trailing carriage return
/// dropped from each line, and no empty line after a final newline.
pub open spec fn split_lines_s(s: Seq<char>) -> Seq<Seq<char>>
    decreases s.len(),
{
    if s.len() == 0 {
        Seq::empty()
    } else {
        let i = find_idx_r(s, '\n');
        if i < 0 {
            seq![chop_cr(s)]
        } else {
            seq![chop_cr(s.take(i))] + split_lines_s(s.skip(i + 1))
        }
    }
}

/// `find_idx` with the bound that makes `split_lines_s` terminate.
pub open spec fn find_idx_r(s: Seq<char>, c: char) -> int {
    let r = find_idx(s, c);
    if 0 <= r < s.len() {
        r
    } else {
        -1
    }
}

pub proof fn lemma_find_idx_r(s: Seq<char>, c: char)
    ensures
        find_idx_r(s, c) == find_idx(s, c),
{
    lemma_find_idx(s, c);
}

/// `s` without leading whitespace.
pub open spec fn trim_start_s(s: Seq<char>) -> Seq<char>
    decreases s.len(),
{
    if s.len() == 0 {
        s
    } else if is_ws(s[0]) {
        trim_start_s(s.skip(1))
    } else {
        s
    }
}

/// `s` without trailing whitespace.
pub open spec fn trim_end_s(s: Seq<char>) -> Seq<char>
    decreases s.len(),
{
    if s.len() == 0 {
        s
    } else if is_ws(s.last()) {
        trim_end_s(s.drop_last())
    } else {
        s
    }
}

/// `s` without leading and trailing whitespace.
pub open spec fn trim_s(s: Seq<char>) -> Seq<char> {
    trim_end_s(trim_start_s(s))
}

/// Count of leading blanks: the indent level of a line.
pub open spec fn leading_blanks(s: Seq<char>) -> int
    decreases s.len(),
{
    if s.len() == 0 {
        0
    } else if is_blank(s[0]) {
        1 + leading_blanks(s.skip(1))
    } else {
        0
    }
}

pub proof fn lemma_leading_blanks(s: Seq<char>, i: int)
    requires
        0 <= i <= s.len(),
        forall|k: int| 0 <= k < i ==> is_blank(s[k]),
        i == s.len() || !is_blank(s[i]),
    ensures
        leading_blanks(s) == i,
    decreases i,
{
    if i == 0 {
    } else {
        let s1 = s.skip(1);
        assert(forall|k: int| 0 <= k < i - 1 ==> s1[k] == s[k + 1]);
        lemma_leading_blanks(s1, i - 1);
    }
}

pub proof fn lemma_trim_start(s: Seq<char>, a: int)
    requires
        0 <= a <= s.len(),
        forall|k: int| 0 <= k < a ==> is_ws(s[k]),
        a == s.len() || !is_ws(s[a]),
    ensures
        trim_start_s(s) == s.skip(a),
    decreases a,
{
    if a == 0 {
        assert(s.skip(0) =~= s);
    } else {
        let s1 = s.skip(1);
        assert(forall|k: int| 0 <= k < a - 1 ==> s1[k] == s[k + 1]);
        lemma_trim_start(s1, a - 1);
        assert(s1.skip(a - 1) =~= s.skip(a));
    }
}

pub proof fn lemma_trim_end(s: Seq<char>, b: int)
    requires
        0 <= b <= s.len(),
        forall|k: int| b <= k < s.len() ==> is_ws(s[k]),
        b == 0 || !is_ws(s[b - 1]),
    ensures
        trim_end_s(s) == s.take(b),
    decreases s.len() - b,
{
    if b == s.len() {
        assert(s.take(b) =~= s);
    } else {
        let s1 = s.drop_last();
        assert(forall|k: int| b <= k < s1.len() ==> s1[k] == s[k]);
        lemma_trim_end(s1, b);
        assert(s1.take(b) =~= s.take(b));
    }
}

// ---------------------------------------------------------------------------
// Executable counterparts
// ---------------------------------------------------------------------------
/// Whether `c` is a decimal digit.
pub fn digit_test(c: char) -> (r: bool)
    ensures
        r == is_digit(c),
{
    let u = c as u32;
    48 <= u && u <= 57
}

/// Whether `c` is space or tab.
pub fn blank_test(c: char) -> (r: bool)
    ensures
        r == is_blank(c),
{
    c == ' ' || c == '\t'
}

/// Whether `c` is whitespace in the sense of trimming.
pub fn ws_test(c: char) -> (r: bool)
    ensures
        r == is_ws(c),
{
    c == ' ' || c == '\t' || c == '\n' || c == '\r' || c == '\u{b}' || c == '\u{c}'
}

/// First index of `c` in `s` at or after `from`.
pub fn find_char_from(s: &str, c: char, from: usize) -> (r: Option<usize>)
    requires
        from <= s@.len(),
    ensures
        match r {
            Some(i) => from <= i < s@.len() && s@[i as int] == c && forall|k: int|
                from <= k < i ==> s@[k] != c,
            None => forall|k: int| from <= k < s@.len() ==> s@[k] != c,
        },
{
    let n = s.unicode_len();
    let mut i: usize = from;
    while i < n
        invariant
            from <= i <= n,
            n == s@.len(),
            forall|k: int| from <= k < i ==> s@[k] != c,
        decreases n - i,
    {
        if s.get_char(i) == c {
            return Some(i);
        }
        i = i + 1;
    }
    None
}

/// Relates a first-occurrence search to `find_idx`.
pub proof fn lemma_find_idx_of_first(s: Seq<char>, c: char, i: int)
    requires
        0 <= i < s.len(),
        s[i] == c,
        forall|k: int| 0 <= k < i ==> s[k] != c,
    ensures
        find_idx(s, c) == i,
{
    lemma_find_idx(s, c);
    let r = find_idx(s, c);
    if r == -1 {
    } else if r < i {
    } else if r > i {
    }
}

/// Whether the views of `a` and `b` are the same characters.
pub fn str_eq(a: &str, b: &str) -> (r: bool)
    ensures
        r == (a@ == b@),
{
    let na = a.unicode_len();
    let nb = b.unicode_len();
    if na != nb {
        return false;
    }
    let mut i: usize = 0;
    while i < na
        invariant
            0 <= i <= na,
            na == a@.len(),
            na == b@.len(),
            forall|k: int| 0 <= k < i ==> a@[k] == b@[k],
        decreases na - i,
    {
        if a.get_char(i) != b.get_char(i) {
            return false;
        }
        i = i + 1;
    }
    proof {
        assert(a@ =~= b@);
    }
    true
}

/// Whether `a` comes strictly before `b` in lexicographic order.
pub fn str_lt(a: &str, b: &str) -> (r: bool)
    ensures
        r == lex_lt(a@, b@),
{
    let na = a.unicode_len();
    let nb = b.unicode_len();
    let n = if na < nb {
        na
    } else {
        nb
    };
    let mut i: usize = 0;
    while i < n
        invariant
            0 <= i <= n,
            na == a@.len(),
            nb == b@.len(),
            n == if na < nb {
                na as int
            } else {
                nb as int
            },
            forall|k: int| 0 <= k < i ==> a@[k] == b@[k],
        decreases n - i,
    {
        let ca = a.get_char(i);
        let cb = b.get_char(i);
        if ca != cb {
            proof {
                lemma_lex_lt_common(a@, b@, i as int);
            }
            return (ca as u32) < (cb as u32);
        }
        i = i + 1;
    }
    proof {
        lemma_lex_lt_common(a@, b@, n as int);
    }
    na < nb
}

/// Whether `p` is a prefix of `s`.
pub fn str_has_prefix(s: &str, p: &str) -> (r: bool)
    ensures
        r == has_prefix(s@, p@),
{
    let ns = s.unicode_len();
    let np = p.unicode_len();
    if np > ns {
        return false;
    }
    let mut i: usize = 0;
    while i < np
        invariant
            0 <= i <= np,
            np == p@.len(),
            ns == s@.len(),
            np <= ns,
            forall|k: int| 0 <= k < i ==> s@[k] == p@[k],
        decreases np - i,
    {
        if s.get_char(i) != p.get_char(i) {
            proof {
                assert(s@.take(np as int)[i as int] != p@[i as int]);
            }
            return false;
        }
        i = i + 1;
    }
    proof {
        assert(s@.take(np as int) =~= p@);
    }
    true
}

/// Count of leading blanks of `s`.
pub fn count_leading_blanks(s: &str) -> (r: usize)
    ensures
        r == leading_blanks(s@),
{
    let n = s.unicode_len();
    let mut i: usize = 0;
    while i < n
        invariant
            0 <= i <= n,
            n == s@.len(),
            forall|k: int| 0 <= k < i ==> is_blank(s@[k]),
        decreases n - i,
    {
        if !blank_test(s.get_char(i)) {
            proof {
                lemma_leading_blanks(s@, i as int);
            }
            return i;
        }
        i = i + 1;
    }
    proof {
        lemma_leading_blanks(s@, n as int);
    }
    n
}

/// The one-character string for a digit value.
fn digit_str(d: u8) -> (r: &'static str)
    requires
        d < 10,
    ensures
        r@ =~= seq![digit_char(d as int)],
{
    proof {
        reveal_strlit("0");
        reveal_strlit("1");
        reveal_strlit("2");
        reveal_strlit("3");
        reveal_strlit("4");
        reveal_strlit("5");
        reveal_strlit("6");
        reveal_strlit("7");
        reveal_strlit("8");
        reveal_strlit("9");
    }
    match d {
        0 => "0",
        1 => "1",
        2 => "2",
        3 => "3",
        4 => "4",
        5 => "5",
        6 => "6",
        7 => "7",
        8 => "8",
        _ => "9",
    }
}

/// Append the decimal rendering of `n` to `out`.
pub fn append_dec(out: &mut String, n: u128)
    ensures
        final (out)@ == old(out)@ + dec_str(n as int),
    decreases n,
{
    if n >= 10 {
        append_dec(out, n / 10);
        out.append(digit_str((n % 10) as u8));
    } else {
        out.append(digit_str(n as u8));
        proof {
            assert(old(out)@ + dec_str(n as int) =~= old(out)@ + seq![digit_char(n as int)]);
        }
    }
}

/// Parse a non-empty all-digit string as a number, when the value fits.
pub fn parse_usize(s: &str) -> (r: Option<usize>)
    ensures
        match r {
            Some(v) => s@.len() > 0 && all_digits(s@) && dec_val(s@) == v,
            None => s@.len() == 0 || !all_digits(s@) || dec_val(s@) > usize::MAX,
        },
{
    let n = s.unicode_len();
    if n == 0 {
        return None;
    }
    let mut acc: usize = 0;
    let mut i: usize = 0;
    while i < n
        invariant
            0 <= i <= n,
            n == s@.len(),
            all_digits(s@.take(i as int)),
            acc == dec_val(s@.take(i as int)),
        decreases n - i,
    {
        let c = s.get_char(i);
        if !digit_test(c) {
            return None;
        }
        let d: usize = (c as u32 as usize) - 48;
        proof {
            assert(s@.take(i as int + 1).drop_last() =~= s@.take(i as int));
            assert(s@.take(i as int + 1).last() == s@[i as int]);
            assert(forall|k: int|
                0 <= k < i + 1 ==> s@.take(i as int + 1)[k] == #[trigger] s@.take(i as int)[k]
                    || k == i);
            assert(all_digits(s@.take(i as int + 1)));
            assert(dec_val(s@.take(i as int + 1)) == 10 * acc + d);
        }
        let q = (usize::MAX - d) / 10;
        proof {
            assert(10 * q <= usize::MAX - d < 10 * q + 10) by (nonlinear_arith)
                requires
                    q == (usize::MAX - d) / 10,
                    d <= 9,
            ;
        }
        if acc > q {
            proof {
                if all_digits(s@) {
                    lemma_dec_val_prefix(s@, i as int + 1);
                }
            }
            return None;
        }
        acc = acc * 10 + d;
        i = i + 1;
    }
    proof {
        assert(s@.take(n as int) =~= s@);
    }
    Some(acc)
}

/// `s` without leading and trailing whitespace.
pub fn trim_str<'a>(s: &'a str) -> (r: &'a str)
    ensures
        r@ == trim_s(s@),
{
    let n = s.unicode_len();
    let mut a: usize = 0;
    while a < n && ws_test(s.get_char(a))
        invariant
            0 <= a <= n,
            n == s@.len(),
            forall|k: int| 0 <= k < a ==> is_ws(s@[k]),
        decreases n - a,
    {
        a = a + 1;
    }
    proof {
        lemma_trim_start(s@, a as int);
    }
    if a == n {
        proof {
            assert(s@.skip(a as int) =~= Seq::<char>::empty());
            assert(trim_end_s(Seq::<char>::empty()) =~= Seq::<char>::empty());
        }
        let r = s.substring_char(n, n);
        proof {
            assert(r@ =~= trim_s(s@));
        }
        return r;
    }
    let mut b: usize = n;
    while b > a && ws_test(s.get_char(b - 1))
        invariant
            a <= b <= n,
            n == s@.len(),
            forall|k: int| b <= k < n ==> is_ws(s@[k]),
        decreases b,
    {
        b = b - 1;
    }
    proof {
        // b > a: position a is not whitespace, so the backward scan stops at or after a + 1
        let t = s@.skip(a as int);
        assert(forall|k: int| b - a <= k < t.len() ==> is_ws(t[k]));
        assert(t[(b - a - 1) as int] == s@[b as int - 1]);
        lemma_trim_end(t, b as int - a as int);
        assert(t.take(b as int - a as int) =~= s@.subrange(a as int, b as int));
    }
    s.substring_char(a, b)
}

/// The lines of `s`, owned, as `split_lines_s` describes them.
pub fn split_lines(s: &str) -> (v: Vec<String>)
    ensures
        v@.map_values(|l: String| l@) == split_lines_s(s@),
{
    let n = s.unicode_len();
    let mut v: Vec<String> = Vec::new();
    let mut pos: usize = 0;
    proof {
        assert(s@.skip(0) =~= s@);
        assert(v@.map_values(|l: String| l@) =~= Seq::<Seq<char>>::empty());
        assert(split_lines_s(s@) =~= v@.map_values(|l: String| l@) + split_lines_s(s@.skip(0)));
    }
    while pos < n
        invariant
            0 <= pos <= n,
            n == s@.len(),
            split_lines_s(s@) =~= v@.map_values(|l: String| l@) + split_lines_s(
                s@.skip(pos as int),
            ),
        decreases n - pos,
    {
        let ghost rem = s@.skip(pos as int);
        let ghost prev = v@;
        match find_char_from(s, '\n', pos) {
            Some(j) => {
                let line_end = if j > pos && s.get_char(j - 1) == '\r' {
                    j - 1
                } else {
                    j
                };
                let line = s.substring_char(pos, line_end).to_owned();
                proof {
                    assert(forall|k: int| 0 <= k < rem.len() ==> rem[k] == s@[pos + k]);
                    lemma_find_idx_of_first(rem, '\n', j - pos as int);
                    lemma_find_idx_r(rem, '\n');
                    assert(rem.take(j - pos as int) =~= s@.subrange(pos as int, j as int));
                    if j > pos && s@[j as int - 1] == '\r' {
                        assert(chop_cr(rem.take(j - pos as int)) =~= s@.subrange(
                            pos as int,
                            j as int - 1,
                        ));
                    } else {
                        assert(chop_cr(rem.take(j - pos as int)) =~= s@.subrange(
                            pos as int,
                            j as int,
                        ));
                    }
                    assert(chop_cr(rem.take(j - pos as int)) == line@);
                    assert(rem.skip(j - pos as int + 1) =~= s@.skip(j as int + 1));
                    assert(split_lines_s(rem) =~= seq![line@] + split_lines_s(
                        s@.skip(j as int + 1),
                    ));
                }
                v.push(line);
                pos = j + 1;
                proof {
                    assert(v@.map_values(|l: String| l@) =~= prev.map_values(|l: String| l@).push(
                        line@,
                    ));
                    assert(split_lines_s(s@) =~= v@.map_values(|l: String| l@) + split_lines_s(
                        s@.skip(pos as int),
                    ));
                }
            },
            None => {
                let line_end = if n > pos && s.get_char(n - 1) == '\r' {
                    n - 1
                } else {
                    n
                };
                let line = s.substring_char(pos, line_end).to_owned();
                proof {
                    assert(forall|k: int| 0 <= k < rem.len() ==> rem[k] == s@[pos + k]);
                    lemma_find_idx(rem, '\n');
                    if find_idx(rem, '\n') >= 0 {
                        assert(s@[pos + find_idx(rem, '\n')] == '\n');
                    }
                    lemma_find_idx_r(rem, '\n');
                    assert(rem =~= s@.subrange(pos as int, n as int));
                    assert(chop_cr(rem) == line@);
                    assert(split_lines_s(rem) =~= seq![line@]);
                }
                v.push(line);
                pos = n;
                proof {
                    assert(v@.map_values(|l: String| l@) =~= prev.map_values(|l: String| l@).push(
                        v@.last()@,
                    ));
                    assert(split_lines_s(s@) =~= v@.map_values(|l: String| l@) + split_lines_s(
                        s@.skip(pos as int),
                    ));
                }
            },
        }
    }
    proof {
        assert(s@.skip(n as int) =~= Seq::<char>::empty());
        assert(split_lines_s(s@) =~= v@.map_values(|l: String| l@));
    }
    v
}

pub proof fn lemma_lex_lt_irrefl(a: Seq<char>)
    ensures
        !lex_lt(a, a),
    decreases a.len(),
{
    if a.len() > 0 {
        lemma_lex_lt_irrefl(a.skip(1));
    }
}

/// Every character of a decimal rendering is a digit.
pub proof fn lemma_dec_str_digits(n: int)
    requires
        n >= 0,
    ensures
        dec_str(n).len() > 0,
        all_digits(dec_str(n)),
    decreases n,
{
    if n < 10 {
        assert(digit_char(n) as u32 == n + 48);
        assert(is_digit(dec_str(n)[0]));
    } else {
        lemma_dec_str_digits(n / 10);
        assert(digit_char(n % 10) as u32 == n % 10 + 48);
        assert(forall|k: int|
            0 <= k < dec_str(n / 10).len() ==> dec_str(n)[k] == dec_str(n / 10)[k]);
        assert(is_digit(dec_str(n).last()));
    }
}

/// Reading a decimal rendering back gives the number.
pub proof fn lemma_dec_val_dec_str(n: int)
    requires
        n >= 0,
    ensures
        dec_val(dec_str(n)) == n,
    decreases n,
{
    if n < 10 {
        let s = dec_str(n);
        assert(digit_char(n) as u32 == n + 48);
        assert(s.last() == digit_char(n));
        assert(s.drop_last() =~= Seq::<char>::empty());
        assert(dec_val(Seq::<char>::empty()) == 0);
        assert(dec_val(s.drop_last()) == 0);
        assert(dec_val(s) == 10 * dec_val(s.drop_last()) + digit_val(s.last()));
    } else {
        lemma_dec_val_dec_str(n / 10);
        assert(dec_str(n).drop_last() =~= dec_str(n / 10));
        assert(digit_val(digit_char(n % 10)) == n % 10);
        assert(dec_val(dec_str(n)) == 10 * (n / 10) + n % 10);
    }
}

/// Splitting takes the first line off the front.
pub proof fn lemma_split_line(l: Seq<char>, rest: Seq<char>)
    requires
        forall|k: int| 0 <= k < l.len() ==> l[k] != '\n',
    ensures
        split_lines_s(l + seq!['\n'] + rest) == seq![chop_cr(l)] + split_lines_s(rest),
{
    let s = l + seq!['\n'] + rest;
    assert(s[l.len() as int] == '\n');
    assert(forall|k: int| 0 <= k < l.len() ==> s[k] == l[k]);
    lemma_find_idx_of_first(s, '\n', l.len() as int);
    lemma_find_idx_r(s, '\n');
    assert(s.take(l.len() as int) =~= l);
    assert(s.skip(l.len() as int + 1) =~= rest);
    assert(split_lines_s(s) =~= seq![chop_cr(l)] + split_lines_s(rest));
}

} // verus!
