//! Character-level text helpers shared by the parsers and the layout engine.
//!
//! Text is modelled by its `Seq<char>` view; the executable helpers work on
//! `Vec<char>` copies of `String`s and say exactly what they compute.
use vstd::prelude::*;
use vstd::string::*;

verus! {

broadcast use vstd::string::group_string_axioms;

/// Unicode `White_Space`, the property behind `char::is_whitespace`.
pub open spec fn is_ws(c: char) -> bool {
    ||| ('\u{9}' <= c && c <= '\u{d}')
    ||| c == ' '
    ||| c == '\u{85}'
    ||| c == '\u{a0}'
    ||| c == '\u{1680}'
    ||| ('\u{2000}' <= c && c <= '\u{200a}')
    ||| c == '\u{2028}'
    ||| c == '\u{2029}'
    ||| c == '\u{202f}'
    ||| c == '\u{205f}'
    ||| c == '\u{3000}'
}

/// Whether `c` is white space in the sense of `char::is_whitespace`.
pub fn is_whitespace(c: char) -> (r: bool)
    ensures
        r == is_ws(c),
{
    ('\u{9}' <= c && c <= '\u{d}') || c == ' ' || c == '\u{85}' || c == '\u{a0}' || c == '\u{1680}'
        || ('\u{2000}' <= c && c <= '\u{200a}') || c == '\u{2028}' || c == '\u{2029}' || c
        == '\u{202f}' || c == '\u{205f}' || c == '\u{3000}'
}

/// `s` without its leading white space.
pub open spec fn trim_start(s: Seq<char>) -> Seq<char>
    decreases s.len(),
{
    if s.len() > 0 && is_ws(s[0]) {
        trim_start(s.drop_first())
    } else {
        s
    }
}

/// `s` without its trailing white space.
pub open spec fn trim_end(s: Seq<char>) -> Seq<char>
    decreases s.len(),
{
    if s.len() > 0 && is_ws(s.last()) {
        trim_end(s.drop_last())
    } else {
        s
    }
}

/// `s` without leading and trailing white space, as `str::trim` gives it.
pub open spec fn trim(s: Seq<char>) -> Seq<char> {
    trim_end(trim_start(s))
}

/// Whether every character of `s` is white space.
pub open spec fn all_ws(s: Seq<char>) -> bool {
    forall|i: int| 0 <= i < s.len() ==> #[trigger] is_ws(s[i])
}

/// `String::push`: appends one character to a string. Claimed: the text gains
/// exactly that character at its end.
#[verifier::external_body]
pub(crate) fn push_char(s: &mut String, c: char)
    ensures
        final(s)@ == old(s)@.push(c),
{
    s.push(c);
}

/// The characters of a string slice, in order.
pub fn chars_of(s: &str) -> (out: Vec<char>)
    ensures
        out@ == s@,
{
    let mut out: Vec<char> = Vec::new();
    for c in it: s.chars()
        invariant
            out@ == it.seq().take(it.index() as int),
            it.seq() == s@,
    {
        out.push(c);
    }
    out
}

/// Builds a string from a sequence of characters.
pub fn string_of(cs: &[char]) -> (out: String)
    ensures
        out@ == cs@,
{
    let mut out = String::new();
    push_chars(&mut out, cs);
    out
}

/// Appends characters to a string.
pub fn push_chars(out: &mut String, cs: &[char])
    ensures
        final(out)@ == old(out)@ + cs@,
{
    let mut i: usize = 0;
    while i < cs.len()
        invariant
            i <= cs.len(),
            out@ == old(out)@ + cs@.take(i as int),
        decreases cs.len() - i,
    {
        push_char(out, cs[i]);
        i += 1;
        assert(cs@.take(i as int) =~= cs@.take(i - 1).push(cs@[i - 1]));
    }
    assert(cs@.take(cs.len() as int) =~= cs@);
}

/// Appends a string slice to a string.
pub fn push_str(out: &mut String, s: &str)
    ensures
        final(out)@ == old(out)@ + s@,
{
    out.append(s);
}

/// A copy of a string slice.
pub fn to_owned_string(s: &str) -> (r: String)
    ensures
        r@ == s@,
{
    s.to_string()
}

/// A string made of the characters of `s[start..end]`.
pub fn substring(s: &[char], start: usize, end: usize) -> (r: String)
    requires
        start <= end <= s@.len(),
    ensures
        r@ == s@.subrange(start as int, end as int),
{
    let mut out = String::new();
    let mut i = start;
    while i < end
        invariant
            start <= i <= end <= s@.len(),
            out@ == s@.subrange(start as int, i as int),
        decreases end - i,
    {
        push_char(&mut out, s[i]);
        i += 1;
        assert(s@.subrange(start as int, i as int) =~= s@.subrange(start as int, i - 1).push(
            s@[i - 1],
        ));
    }
    out
}

/// The number of characters of a string slice.
pub fn char_count(s: &str) -> (n: usize)
    ensures
        n == s@.len(),
{
    s.unicode_len()
}

/// A string of `n` copies of `c`.
pub open spec fn repeat(c: char, n: nat) -> Seq<char> {
    Seq::new(n, |_i: int| c)
}

/// A string of `n` copies of `c`, as `c.to_string().repeat(n)` gives it.
pub fn repeat_char(c: char, n: usize) -> (r: String)
    ensures
        r@ == repeat(c, n as nat),
{
    let mut out = String::new();
    let mut i: usize = 0;
    while i < n
        invariant
            i <= n,
            out@ == repeat(c, i as nat),
        decreases n - i,
    {
        push_char(&mut out, c);
        i += 1;
        assert(out@ =~= repeat(c, i as nat));
    }
    out
}

/// Index of the first character of `s` that is not white space (or `s.len()`).
pub fn skip_ws_start(s: &[char]) -> (i: usize)
    ensures
        i <= s@.len(),
        trim_start(s@) == s@.subrange(i as int, s@.len() as int),
        all_ws(s@.subrange(0, i as int)),
        i < s@.len() ==> !is_ws(s@[i as int]),
{
    let mut i: usize = 0;
    assert(s@.subrange(0, s@.len() as int) =~= s@);
    while i < s.len() && is_whitespace(s[i])
        invariant
            i <= s@.len(),
            trim_start(s@) == trim_start(s@.subrange(i as int, s@.len() as int)),
            all_ws(s@.subrange(0, i as int)),
        decreases s.len() - i,
    {
        assert(s@.subrange(i as int, s@.len() as int).drop_first() =~= s@.subrange(
            i + 1,
            s@.len() as int,
        ));
        assert(s@.subrange(0, i + 1) =~= s@.subrange(0, i as int).push(s@[i as int]));
        i += 1;
    }
    i
}

/// Index just past the last character of `s[..end]` that is not white space
/// (or `start` when `s[start..end]` is all white space).
pub fn skip_ws_end(s: &[char], start: usize, end: usize) -> (j: usize)
    requires
        start <= end <= s@.len(),
    ensures
        start <= j <= end,
        trim_end(s@.subrange(start as int, end as int)) == s@.subrange(start as int, j as int),
        all_ws(s@.subrange(j as int, end as int)),
        j > start ==> !is_ws(s@[j - 1]),
{
    let mut j = end;
    while j > start && is_whitespace(s[j - 1])
        invariant
            start <= j <= end <= s@.len(),
            trim_end(s@.subrange(start as int, end as int)) == trim_end(
                s@.subrange(start as int, j as int),
            ),
            all_ws(s@.subrange(j as int, end as int)),
        decreases j,
    {
        assert(s@.subrange(start as int, j as int).drop_last() =~= s@.subrange(
            start as int,
            j - 1,
        ));
        assert(s@.subrange(j - 1, end as int) =~= seq![s@[j - 1]] + s@.subrange(
            j as int,
            end as int,
        ));
        j -= 1;
    }
    j
}

/// The bounds `(start, end)` of `trim(s)` inside `s`.
pub fn trim_bounds(s: &[char]) -> (r: (usize, usize))
    ensures
        r.0 <= r.1 <= s@.len(),
        trim(s@) == s@.subrange(r.0 as int, r.1 as int),
        trim_start(s@) == s@.subrange(r.0 as int, s@.len() as int),
{
    let i = skip_ws_start(s);
    let j = skip_ws_end(s, i, s.len());
    (i, j)
}

/// `str::trim` on a string slice.
pub fn trim_string(s: &str) -> (r: String)
    ensures
        r@ == trim(s@),
{
    let cs = chars_of(s);
    let (i, j) = trim_bounds(cs.as_slice());
    substring(cs.as_slice(), i, j)
}

/// Whether `s` begins with `p`.
pub open spec fn has_prefix(s: Seq<char>, p: Seq<char>) -> bool {
    p.len() <= s.len() && s.subrange(0, p.len() as int) == p
}

/// Whether `s[at..]` begins with `p`.
pub open spec fn has_prefix_at(s: Seq<char>, at: int, p: Seq<char>) -> bool {
    0 <= at && at + p.len() <= s.len() && s.subrange(at, at + p.len()) == p
}

/// Whether `s[at..]` begins with `p`.
pub fn starts_with_at(s: &[char], at: usize, p: &[char]) -> (r: bool)
    ensures
        r == has_prefix_at(s@, at as int, p@),
{
    if at > s.len() || p.len() > s.len() - at {
        return false;
    }
    let mut k: usize = 0;
    while k < p.len()
        invariant
            k <= p@.len(),
            at <= s.len(),
            at + p.len() <= s.len(),
            forall|m: int| 0 <= m < k ==> s@[at + m] == p@[m],
        decreases p.len() - k,
    {
        if s[at + k] != p[k] {
            assert(s@.subrange(at as int, at + p@.len())[k as int] != p@[k as int]);
            return false;
        }
        k += 1;
    }
    assert(s@.subrange(at as int, at + p@.len()) =~= p@);
    true
}

/// The decimal digit character for `d < 10`.
pub open spec fn digit_char(d: nat) -> char {
    ((d + 48) as u32) as char
}

/// The decimal representation of `n`, without sign or leading zeros.
pub open spec fn decimal(n: nat) -> Seq<char>
    decreases n,
{
    if n < 10 {
        seq![digit_char(n)]
    } else {
        decimal(n / 10).push(digit_char(n % 10))
    }
}

/// Appends the decimal representation of `n`, as `write!(out, "{}", n)` would.
pub fn push_decimal(out: &mut String, n: u128)
    ensures
        final(out)@ == old(out)@ + decimal(n as nat),
    decreases n,
{
    if n >= 10 {
        push_decimal(out, n / 10);
    }
    let c = digit_to_char((n % 10) as u8);
    push_char(out, c);
}

/// The character of the decimal digit `d`.
pub fn digit_to_char(d: u8) -> (c: char)
    requires
        d < 10,
    ensures
        c == digit_char(d as nat),
{
    if d == 0 {
        '0'
    } else if d == 1 {
        '1'
    } else if d == 2 {
        '2'
    } else if d == 3 {
        '3'
    } else if d == 4 {
        '4'
    } else if d == 5 {
        '5'
    } else if d == 6 {
        '6'
    } else if d == 7 {
        '7'
    } else if d == 8 {
        '8'
    } else {
        '9'
    }
}

/// Whether `c` is an ASCII decimal digit.
pub open spec fn is_digit(c: char) -> bool {
    '0' <= c && c <= '9'
}

/// The value of the ASCII digit `c`.
pub open spec fn digit_value(c: char) -> nat {
    (c as u32 - 48) as nat
}

/// The value of a non-empty run of ASCII digits.
pub open spec fn digits_value(s: Seq<char>) -> nat
    decreases s.len(),
{
    if s.len() == 0 {
        0
    } else {
        digits_value(s.drop_last()) * 10 + digit_value(s.last())
    }
}

/// Whether `s` is a non-empty run of ASCII digits.
pub open spec fn all_digits(s: Seq<char>) -> bool {
    s.len() > 0 && forall|i: int| 0 <= i < s.len() ==> #[trigger] is_digit(s[i])
}

/// What `s.parse::<T>()` gives for an unsigned integer type whose largest value is `max`:
/// an optional `+`, then at least one ASCII digit, and a value that fits.
pub open spec fn parse_unsigned(s: Seq<char>, max: nat) -> Option<nat> {
    let digits = if s.len() > 1 && s[0] == '+' {
        s.drop_first()
    } else {
        s
    };
    if all_digits(digits) && digits_value(digits) <= max {
        Some(digits_value(digits))
    } else {
        None
    }
}

/// `s.parse::<u64>()` for an unsigned integer of at most `u64::MAX`, returning the value when it parses.
#[verifier::spinoff_prover]
#[verifier::rlimit(40)]
pub fn parse_u64(s: &[char]) -> (r: Option<u64>)
    ensures
        r matches Some(v) ==> parse_unsigned(s@, u64::MAX as nat) == Some(v as nat),
        r is None ==> parse_unsigned(s@, u64::MAX as nat) is None,
{
    let start: usize = if s.len() > 1 && s[0] == '+' {
        1
    } else {
        0
    };
    let ghost digits = s@.subrange(start as int, s@.len() as int);
    assert(digits =~= (if s@.len() > 1 && s@[0] == '+' {
        s@.drop_first()
    } else {
        s@
    }));
    if start == s.len() {
        return None;
    }
    let mut value: u64 = 0;
    let mut i = start;
    while i < s.len()
        invariant
            start <= i <= s@.len(),
            digits == s@.subrange(start as int, s@.len() as int),
            digits == (if s@.len() > 1 && s@[0] == '+' {
                s@.drop_first()
            } else {
                s@
            }),
            forall|k: int| start <= k < i ==> #[trigger] is_digit(s@[k]),
            value == digits_value(s@.subrange(start as int, i as int)),
        decreases s.len() - i,
    {
        let c = s[i];
        if !('0' <= c && c <= '9') {
            assert(digits[i - start] == s@[i as int]);
            assert(!is_digit(digits[i - start]));
            assert(!all_digits(digits));
            return None;
        }
        let d = (c as u32 - 48) as u64;
        assert(s@.subrange(start as int, i + 1).drop_last() =~= s@.subrange(start as int, i as int));
        if value > (u64::MAX - d) / 10 {
            proof {
                lemma_digits_value_prefix_grows(digits, (i + 1 - start) as int);
                assert(digits.subrange(0, i + 1 - start) =~= s@.subrange(start as int, i + 1));
                assert(value * 10 + d > u64::MAX) by (nonlinear_arith)
                    requires
                        value > (u64::MAX - d) / 10,
                        d <= 9,
                ;
                assert(digits_value(s@.subrange(start as int, i + 1)) == value * 10 + d);
                assert(!(all_digits(digits) && digits_value(digits) <= u64::MAX));
            }
            return None;
        }
        value = value * 10 + d;
        i += 1;
    }
    assert(s@.subrange(start as int, s@.len() as int) =~= digits);
    Some(value)
}

/// A prefix of a digit run is worth no more than the whole run.
pub proof fn lemma_digits_value_prefix_grows(s: Seq<char>, k: int)
    requires
        0 <= k <= s.len(),
    ensures
        digits_value(s.subrange(0, k)) <= digits_value(s),
    decreases s.len() - k,
{
    if k < s.len() {
        lemma_digits_value_prefix_grows(s, k + 1);
        assert(s.subrange(0, k + 1).drop_last() =~= s.subrange(0, k));
    } else {
        assert(s.subrange(0, k) =~= s);
    }
}

} // verus!

verus! {

/// Moves the contents out of a vector, leaving it empty.
pub fn take_vec<T>(v: &mut Vec<T>) -> (r: Vec<T>)
    ensures
        r@ == old(v)@,
        final(v)@ == Seq::<T>::empty(),
{
    let mut e: Vec<T> = Vec::new();
    std::mem::swap(v, &mut e);
    e
}

/// Moves the contents out of a string, leaving it empty.
pub fn take_string(s: &mut String) -> (r: String)
    ensures
        r@ == old(s)@,
        final(s)@ == Seq::<char>::empty(),
{
    let mut e = String::new();
    std::mem::swap(s, &mut e);
    e
}

/// A copy of a string.
pub fn copy_string(s: &String) -> (r: String)
    ensures
        r@ == s@,
{
    s.clone()
}

} // verus!

verus! {

pub open spec fn incl_step(st: (Seq<Seq<char>>, Seq<char>), c: char) -> (Seq<Seq<char>>, Seq<char>) {
    if c == '\n' {
        (st.0.push(st.1.push('\n')), Seq::empty())
    } else {
        (st.0, st.1.push(c))
    }
}

pub open spec fn incl_fold(s: Seq<char>) -> (Seq<Seq<char>>, Seq<char>)
    decreases s.len(),
{
    if s.len() == 0 {
        (Seq::empty(), Seq::empty())
    } else {
        incl_step(incl_fold(s.drop_last()), s.last())
    }
}

/// The lines of `s`, each with its line break, as `str::split_inclusive('\n')`
/// gives them (no empty last line).
pub open spec fn inclusive_lines(s: Seq<char>) -> Seq<Seq<char>> {
    let (done, cur) = incl_fold(s);
    if cur.len() > 0 {
        done.push(cur)
    } else {
        done
    }
}

/// A line without its `\n` (and a `\r` before it), as `str::lines` strips it.
pub open spec fn strip_line_ending(l: Seq<char>) -> Seq<char> {
    if l.len() > 0 && l.last() == '\n' {
        let m = l.drop_last();
        if m.len() > 0 && m.last() == '\r' {
            m.drop_last()
        } else {
            m
        }
    } else {
        l
    }
}

/// A line without its trailing `\n`.
pub open spec fn strip_newline(l: Seq<char>) -> Seq<char> {
    if l.len() > 0 && l.last() == '\n' {
        l.drop_last()
    } else {
        l
    }
}

/// The lines of `s` as `str::lines` gives them.
pub open spec fn str_lines(s: Seq<char>) -> Seq<Seq<char>> {
    inclusive_lines(s).map_values(|l: Seq<char>| strip_line_ending(l))
}

/// The lines of `s` with their line breaks.
pub fn inclusive_lines_exec(s: &[char]) -> (r: Vec<String>)
    ensures
        r.deep_view() == inclusive_lines(s@),
{
    let mut done: Vec<String> = Vec::new();
    let mut cur = String::new();
    let mut i: usize = 0;
    assert(done.deep_view() =~= Seq::<Seq<char>>::empty());
    while i < s.len()
        invariant
            i <= s@.len(),
            (done.deep_view(), cur@) == incl_fold(s@.take(i as int)),
        decreases s.len() - i,
    {
        assert(s@.take(i + 1).drop_last() =~= s@.take(i as int));
        let c = s[i];
        if c == '\n' {
            push_char(&mut cur, '\n');
            let line = take_string(&mut cur);
            let ghost old_done = done;
            done.push(line);
            assert(done.deep_view() =~= old_done.deep_view().push(line@));
        } else {
            push_char(&mut cur, c);
        }
        i += 1;
    }
    assert(s@.take(s.len() as int) =~= s@);
    if !cur.as_str().is_empty() {
        let ghost old_done = done;
        let ghost c = cur@;
        done.push(cur);
        assert(done.deep_view() =~= old_done.deep_view().push(c));
    }
    done
}

/// A line without its line break (`\n` or `\r\n`).
pub fn strip_line_ending_exec(l: &Vec<char>) -> (r: Vec<char>)
    ensures
        r@ == strip_line_ending(l@),
{
    let mut end = l.len();
    if end > 0 && l[end - 1] == '\n' {
        end -= 1;
        if end > 0 && l[end - 1] == '\r' {
            end -= 1;
        }
    }
    let mut r: Vec<char> = Vec::new();
    let mut i: usize = 0;
    while i < end
        invariant
            i <= end <= l@.len(),
            r@ == l@.take(i as int),
        decreases end - i,
    {
        r.push(l[i]);
        i += 1;
        assert(r@ =~= l@.take(i as int));
    }
    proof {
        if l@.len() > 0 && l@.last() == '\n' {
            let m = l@.drop_last();
            assert(m.take(end as int) =~= l@.take(end as int));
            if m.len() > 0 && m.last() == '\r' {
                assert(m.drop_last() =~= l@.take(end as int));
            } else {
                assert(m =~= l@.take(end as int));
            }
        } else {
            assert(l@ =~= l@.take(end as int));
        }
    }
    r
}

/// A line without its trailing `\n`.
pub fn strip_newline_exec(l: &Vec<char>) -> (r: Vec<char>)
    ensures
        r@ == strip_newline(l@),
{
    let mut r: Vec<char> = Vec::new();
    let end = if l.len() > 0 && l[l.len() - 1] == '\n' {
        l.len() - 1
    } else {
        l.len()
    };
    let mut i: usize = 0;
    while i < end
        invariant
            i <= end <= l@.len(),
            r@ == l@.take(i as int),
        decreases end - i,
    {
        r.push(l[i]);
        i += 1;
        assert(r@ =~= l@.take(i as int));
    }
    assert(l@.take(end as int) =~= strip_newline(l@));
    r
}

} // verus!

verus! {

/// The lines of a string as `str::lines` gives them.
pub fn str_lines_exec(s: &str) -> (r: Vec<String>)
    ensures
        r.deep_view() == str_lines(s@),
{
    let cs = chars_of(s);
    let incl = inclusive_lines_exec(cs.as_slice());
    let mut out: Vec<String> = Vec::new();
    let mut i: usize = 0;
    while i < incl.len()
        invariant
            i <= incl@.len(),
            incl.deep_view() == inclusive_lines(s@),
            out.deep_view() =~= str_lines(s@).take(i as int),
        decreases incl.len() - i,
    {
        let line = chars_of(incl[i].as_str());
        let stripped = strip_line_ending_exec(&line);
        let st = string_of(stripped.as_slice());
        let ghost old_out = out;
        out.push(st);
        assert(out.deep_view() =~= old_out.deep_view().push(st@));
        i += 1;
    }
    out
}

} // verus!

verus! {

pub open spec fn split_step(st: (Seq<Seq<char>>, Seq<char>), c: char, sep: char) -> (Seq<Seq<char>>, Seq<char>) {
    if c == sep {
        (st.0.push(st.1), Seq::empty())
    } else {
        (st.0, st.1.push(c))
    }
}

pub open spec fn split_fold(s: Seq<char>, sep: char) -> (Seq<Seq<char>>, Seq<char>)
    decreases s.len(),
{
    if s.len() == 0 {
        (Seq::empty(), Seq::empty())
    } else {
        split_step(split_fold(s.drop_last(), sep), s.last(), sep)
    }
}

/// The pieces of `s` between separators, as `str::split(sep)` gives them
/// (always at least one).
pub open spec fn split_on(s: Seq<char>, sep: char) -> Seq<Seq<char>> {
    let (done, cur) = split_fold(s, sep);
    done.push(cur)
}

/// The `i`-th piece of `s` split at `sep`, or `default` when there are fewer.
pub open spec fn piece_or(s: Seq<char>, sep: char, i: int, default: Seq<char>) -> Seq<char> {
    let ps = split_on(s, sep);
    if i < ps.len() {
        ps[i]
    } else {
        default
    }
}

/// `s` split at `sep`.
pub fn split_on_exec(s: &str, sep: char) -> (r: Vec<String>)
    ensures
        r.deep_view() == split_on(s@, sep),
{
    let cs = chars_of(s);
    let mut done: Vec<String> = Vec::new();
    let mut cur = String::new();
    let mut i: usize = 0;
    assert(done.deep_view() =~= Seq::<Seq<char>>::empty());
    while i < cs.len()
        invariant
            i <= cs@.len(),
            cs@ == s@,
            (done.deep_view(), cur@) == split_fold(cs@.take(i as int), sep),
        decreases cs.len() - i,
    {
        assert(cs@.take(i + 1).drop_last() =~= cs@.take(i as int));
        if cs[i] == sep {
            let piece = take_string(&mut cur);
            let ghost old_done = done;
            done.push(piece);
            assert(done.deep_view() =~= old_done.deep_view().push(piece@));
        } else {
            push_char(&mut cur, cs[i]);
        }
        i += 1;
    }
    assert(cs@.take(cs.len() as int) =~= s@);
    let ghost old_done = done;
    let ghost c = cur@;
    done.push(cur);
    assert(done.deep_view() =~= old_done.deep_view().push(c));
    done
}

/// The `i`-th piece of `s` split at `sep`, or `default`.
pub fn piece_or_exec(s: &str, sep: char, i: usize, default: &str) -> (r: String)
    ensures
        r@ == piece_or(s@, sep, i as int, default@),
{
    let ps = split_on_exec(s, sep);
    if i < ps.len() {
        copy_string(&ps[i])
    } else {
        to_owned_string(default)
    }
}

/// Whether two strings are equal.
pub fn str_eq(a: &str, b: &str) -> (r: bool)
    ensures
        r == (a@ == b@),
{
    let ac = chars_of(a);
    let bc = chars_of(b);
    if ac.len() != bc.len() {
        assert(a@.len() != b@.len());
        return false;
    }
    let mut i: usize = 0;
    while i < ac.len()
        invariant
            i <= ac@.len(),
            ac@ == a@,
            bc@ == b@,
            ac@.len() == bc@.len(),
            forall|k: int| 0 <= k < i ==> ac@[k] == bc@[k],
        decreases ac.len() - i,
    {
        if ac[i] != bc[i] {
            assert(a@[i as int] != b@[i as int]);
            return false;
        }
        i += 1;
    }
    assert(ac@ =~= bc@);
    true
}

/// `s.parse::<u16>().unwrap_or_default()`: the value, or 0 when it does not parse.
pub fn parse_u16_or_zero(s: &str) -> (r: u16)
    ensures
        r == (match parse_unsigned(s@, u16::MAX as nat) {
            Some(v) => v,
            None => 0,
        }),
{
    let cs = chars_of(s);
    match parse_u64(cs.as_slice()) {
        Some(v) => {
            if v <= 0xffff {
                v as u16
            } else {
                assert(parse_unsigned(s@, u16::MAX as nat) is None);
                0
            }
        },
        None => {
            proof {
                if parse_unsigned(s@, u16::MAX as nat) is Some {
                    assert(parse_unsigned(s@, u64::MAX as nat) is Some);
                }
            }
            0
        },
    }
}

/// What `str::to_lowercase` makes of a text (Unicode lowercase mapping).
pub uninterp spec fn lowercase(s: Seq<char>) -> Seq<char>;

/// `str::to_lowercase`. Claimed: the result is `lowercase(s)`, a function of the text alone.
#[verifier::external_body]
pub(crate) fn to_lowercase(s: &str) -> (r: String)
    ensures
        r@ == lowercase(s@),
{
    s.to_lowercase()
}

} // verus!

verus! {

/// Whether `p` occurs in `s`.
pub open spec fn contains_seq(s: Seq<char>, p: Seq<char>) -> bool {
    exists|i: int| 0 <= i <= s.len() - p.len() && #[trigger] has_prefix_at(s, i, p)
}

/// `str::contains` with a string pattern.
pub fn contains_str(s: &str, p: &str) -> (r: bool)
    ensures
        r == contains_seq(s@, p@),
{
    let sc = chars_of(s);
    let pc = chars_of(p);
    if pc.len() > sc.len() {
        assert forall|i: int| 0 <= i <= s@.len() - p@.len() implies !has_prefix_at(s@, i, p@) by {}
        return false;
    }
    let last = sc.len() - pc.len();
    let mut i: usize = 0;
    loop
        invariant
            sc@ == s@,
            pc@ == p@,
            pc.len() <= sc.len(),
            last == sc.len() - pc.len(),
            i <= last,
            forall|q: int| 0 <= q < i ==> !#[trigger] has_prefix_at(s@, q, p@),
        decreases last - i,
    {
        if starts_with_at(sc.as_slice(), i, pc.as_slice()) {
            return true;
        }
        if i == last {
            assert forall|q: int| 0 <= q <= s@.len() - p@.len() implies !#[trigger] has_prefix_at(
                s@,
                q,
                p@,
            ) by {
                if q == i {
                }
            }
            return false;
        }
        i += 1;
    }
}

/// Whether two strings are equal, for a string and a string slice.
pub fn string_is(a: &String, b: &str) -> (r: bool)
    ensures
        r == (a@ == b@),
{
    str_eq(a.as_str(), b)
}

} // verus!

verus! {

/// `str::trim`: the slice of `s` without leading and trailing white space.
pub fn trim_str(s: &str) -> (r: &str)
    ensures
        r@ == trim(s@),
{
    let cs = chars_of(s);
    let (i, j) = trim_bounds(cs.as_slice());
    s.substring_char(i, j)
}

} // verus!
