//! Character-level text primitives: whitespace, trimming, equality,
//! line and comma splitting, joining, and decimal rendering.
//!
//! Everything here operates on `&str` and `String` values whose views are
//! `Seq<char>`, so the fixed-width parsing in `tw` can state its contracts
//! over character sequences.

use vstd::prelude::*;

verus! {

/// A character with the Unicode `White_Space` property, the set that
/// `char::is_whitespace` recognizes.
pub open spec fn is_space(c: char) -> bool {
    ||| c == ' '
    ||| c == '\t'
    ||| c == '\n'
    ||| c == '\u{0b}'
    ||| c == '\u{0c}'
    ||| c == '\r'
    ||| c == '\u{85}'
    ||| c == '\u{a0}'
    ||| c == '\u{1680}'
    ||| (c as u32 >= 0x2000 && c as u32 <= 0x200a)
    ||| c == '\u{2028}'
    ||| c == '\u{2029}'
    ||| c == '\u{202f}'
    ||| c == '\u{205f}'
    ||| c == '\u{3000}'
}

/// Runtime test for [`is_space`].
pub fn is_space_char(c: char) -> (r: bool)
    ensures
        r == is_space(c),
{
    c == ' ' || c == '\t' || c == '\n' || c == '\u{0b}' || c == '\u{0c}' || c == '\r'
        || c == '\u{85}' || c == '\u{a0}' || c == '\u{1680}'
        || (c as u32 >= 0x2000 && c as u32 <= 0x200a) || c == '\u{2028}' || c == '\u{2029}'
        || c == '\u{202f}' || c == '\u{205f}' || c == '\u{3000}'
}

/// The sequence without its leading whitespace.
pub open spec fn trim_start(s: Seq<char>) -> Seq<char>
    decreases s.len(),
{
    if s.len() > 0 && is_space(s[0]) {
        trim_start(s.drop_first())
    } else {
        s
    }
}

/// The sequence without its trailing whitespace.
pub open spec fn trim_end(s: Seq<char>) -> Seq<char>
    decreases s.len(),
{
    if s.len() > 0 && is_space(s.last()) {
        trim_end(s.drop_last())
    } else {
        s
    }
}

/// The sequence without leading or trailing whitespace, as `str::trim`
/// computes it.
pub open spec fn trim(s: Seq<char>) -> Seq<char> {
    trim_end(trim_start(s))
}

/// Character-for-character string equality.
pub fn str_eq(a: &str, b: &str) -> (r: bool)
    ensures
        r == (a@ == b@),
{
    let an = a.unicode_len();
    let bn = b.unicode_len();
    if an != bn {
        assert(a@ != b@) by {
            assert(a@.len() != b@.len());
        }
        return false;
    }
    let mut i: usize = 0;
    while i < an
        invariant
            i <= an,
            an == a@.len(),
            an == b@.len(),
            forall|j: int| 0 <= j < i ==> a@[j] == b@[j],
        decreases an - i,
    {
        if a.get_char(i) != b.get_char(i) {
            assert(a@ != b@) by {
                assert(a@[i as int] != b@[i as int]);
            }
            return false;
        }
        i = i + 1;
    }
    assert(a@ =~= b@);
    true
}

/// If the first `k` characters are whitespace and the `k`th is not (or is
/// past the end), trimming the start removes exactly those `k` characters.
proof fn lemma_trim_start_at(s: Seq<char>, k: int)
    requires
        0 <= k <= s.len(),
        forall|j: int| 0 <= j < k ==> is_space(s[j]),
        k == s.len() || !is_space(s[k]),
    ensures
        trim_start(s) == s.skip(k),
    decreases k,
{
    if k == 0 {
        assert(s.skip(0) =~= s);
    } else {
        lemma_trim_start_at(s.drop_first(), k - 1);
        assert(s.drop_first().skip(k - 1) =~= s.skip(k));
    }
}

/// If every character from `k` on is whitespace and the one before `k` is
/// not (or `k` is 0), trimming the end keeps exactly the first `k`.
proof fn lemma_trim_end_at(s: Seq<char>, k: int)
    requires
        0 <= k <= s.len(),
        forall|j: int| k <= j < s.len() ==> is_space(s[j]),
        k == 0 || !is_space(s[k - 1]),
    ensures
        trim_end(s) == s.take(k),
    decreases s.len() - k,
{
    if k == s.len() {
        assert(s.take(k) =~= s);
    } else {
        lemma_trim_end_at(s.drop_last(), k);
        assert(s.drop_last().take(k) =~= s.take(k));
    }
}

/// `str::trim` as an executable function returning an owned string.
pub fn trim_str(s: &str) -> (r: String)
    ensures
        r@ == trim(s@),
{
    let n = s.unicode_len();
    let mut lo: usize = 0;
    while lo < n && is_space_char(s.get_char(lo))
        invariant
            lo <= n,
            n == s@.len(),
            forall|j: int| 0 <= j < lo ==> is_space(s@[j]),
        decreases n - lo,
    {
        lo = lo + 1;
    }
    let mut hi: usize = n;
    while hi > lo && is_space_char(s.get_char(hi - 1))
        invariant
            lo <= hi <= n,
            n == s@.len(),
            forall|j: int| hi <= j < n ==> is_space(s@[j]),
        decreases hi,
    {
        hi = hi - 1;
    }
    let sub = s.substring_char(lo, hi);
    proof {
        lemma_trim_start_at(s@, lo as int);
        let t = s@.skip(lo as int);
        lemma_trim_end_at(t, hi - lo);
        assert(t.take(hi - lo) =~= s@.subrange(lo as int, hi as int));
    }
    String::from_str(sub)
}

/// `x` clamped to the range `[0, n]`.
pub open spec fn clip(x: int, n: int) -> int {
    if x < 0 {
        0
    } else if x > n {
        n
    } else {
        x
    }
}

/// The trimmed text of `line` between offsets `a` and `b`, both clamped to
/// the line's length: a line shorter than an offset yields an empty field
/// rather than an error.
pub open spec fn field_at(line: Seq<char>, a: int, b: int) -> Seq<char> {
    let lo = clip(a, line.len() as int);
    let hi = clip(b, line.len() as int);
    if hi < lo {
        trim(line.subrange(lo, lo))
    } else {
        trim(line.subrange(lo, hi))
    }
}

/// The fields of `line` at consecutive offset pairs: one per pair, each
/// clamped and trimmed.
pub open spec fn fields_of(line: Seq<char>, offsets: Seq<int>) -> Seq<Seq<char>> {
    if offsets.len() == 0 {
        Seq::empty()
    } else {
        Seq::new((offsets.len() - 1) as nat, |i: int| field_at(line, offsets[i], offsets[i + 1]))
    }
}

/// One clamped, trimmed slice of `line`, as [`field_at`] describes it.
pub fn slice_between(line: &str, a: usize, b: usize) -> (r: String)
    ensures
        r@ == field_at(line@, a as int, b as int),
{
    let n = line.unicode_len();
    let lo = if a > n {
        n
    } else {
        a
    };
    let mut hi = if b > n {
        n
    } else {
        b
    };
    if hi < lo {
        hi = lo;
    }
    trim_str(line.substring_char(lo, hi))
}

/// Index of the first occurrence of `c` in `s`, or `s.len()` if absent.
pub open spec fn find_char(s: Seq<char>, c: char) -> int
    decreases s.len(),
{
    if s.len() == 0 {
        0
    } else if s[0] == c {
        0
    } else {
        1 + find_char(s.drop_first(), c)
    }
}

/// `find_char` is determined by where `c` first appears.
pub proof fn lemma_find_char_at(s: Seq<char>, c: char, k: int)
    requires
        0 <= k <= s.len(),
        forall|j: int| 0 <= j < k ==> s[j] != c,
        k == s.len() || s[k] == c,
    ensures
        find_char(s, c) == k,
    decreases k,
{
    if k > 0 {
        lemma_find_char_at(s.drop_first(), c, k - 1);
    }
}

/// A line body with one trailing carriage return removed, as `str::lines`
/// strips it before a line feed.
pub open spec fn strip_cr(s: Seq<char>) -> Seq<char> {
    if s.len() > 0 && s.last() == '\r' {
        s.drop_last()
    } else {
        s
    }
}

/// The lines of `s`, as `str::lines` yields them: split at `'\n'`, one
/// trailing `'\r'` stripped from each piece before a `'\n'`, and no final
/// empty line for input ending in `'\n'`.
pub open spec fn lines_of(s: Seq<char>) -> Seq<Seq<char>>
    decreases s.len(),
{
    if s.len() == 0 {
        Seq::empty()
    } else {
        let i = find_char(s, '\n');
        if !(0 <= i < s.len()) {
            seq![s]
        } else {
            seq![strip_cr(s.take(i))] + lines_of(s.skip(i + 1))
        }
    }
}

/// The pieces of `s` between commas, empty pieces kept; always at least one
/// piece, as `str::split(',')` yields them.
pub open spec fn comma_fields_of(s: Seq<char>) -> Seq<Seq<char>>
    decreases s.len(),
{
    let i = find_char(s, ',');
    if !(0 <= i < s.len()) {
        seq![s]
    } else {
        seq![s.take(i)] + comma_fields_of(s.skip(i + 1))
    }
}

/// `str::lines` as an executable function over owned strings.
pub fn split_lines(s: &str) -> (r: Vec<String>)
    ensures
        r.deep_view() == lines_of(s@),
{
    let n = s.unicode_len();
    let mut out: Vec<String> = Vec::new();
    let mut start: usize = 0;
    let mut i: usize = 0;
    proof {
        assert(out.deep_view() =~= Seq::<Seq<char>>::empty());
        assert(s@.skip(0) =~= s@);
        assert(out.deep_view() + lines_of(s@) =~= lines_of(s@));
    }
    while i < n
        invariant
            start <= i <= n,
            n == s@.len(),
            forall|j: int| start <= j < i ==> s@[j] != '\n',
            out.deep_view() + lines_of(s@.skip(start as int)) == lines_of(s@),
        decreases n - i,
    {
        if s.get_char(i) == '\n' {
            let end = if i > start && s.get_char(i - 1) == '\r' {
                i - 1
            } else {
                i
            };
            let piece = s.substring_char(start, end);
            proof {
                let t = s@.skip(start as int);
                lemma_find_char_at(t, '\n', i - start);
                assert(t.take(i - start) =~= s@.subrange(start as int, i as int));
                assert(strip_cr(s@.subrange(start as int, i as int)) =~= s@.subrange(
                    start as int,
                    end as int,
                ));
                assert(t.skip(i - start + 1) =~= s@.skip(i + 1));
                assert(lines_of(t) == seq![piece@] + lines_of(s@.skip(i + 1)));
            }
            let ghost old_dv = out.deep_view();
            out.push(String::from_str(piece));
            proof {
                assert(out.deep_view() =~= old_dv + seq![piece@]);
                assert(out.deep_view() + lines_of(s@.skip(i + 1)) =~= lines_of(s@));
            }
            start = i + 1;
        }
        i = i + 1;
    }
    if start < n {
        let piece = s.substring_char(start, n);
        proof {
            let t = s@.skip(start as int);
            lemma_find_char_at(t, '\n', n - start);
            assert(piece@ =~= t);
            assert(lines_of(t) == seq![t]);
        }
        let ghost old_dv = out.deep_view();
        out.push(String::from_str(piece));
        proof {
            assert(out.deep_view() =~= old_dv + seq![s@.skip(start as int)]);
        }
    } else {
        proof {
            assert(s@.skip(start as int) =~= Seq::<char>::empty());
            assert(out.deep_view() + lines_of(Seq::<char>::empty()) =~= out.deep_view());
        }
    }
    out
}

/// `str::split(',')` as an executable function over owned strings.
pub fn split_commas(s: &str) -> (r: Vec<String>)
    ensures
        r.deep_view() == comma_fields_of(s@),
        r@.len() >= 1,
{
    let n = s.unicode_len();
    let mut out: Vec<String> = Vec::new();
    let mut start: usize = 0;
    let mut i: usize = 0;
    proof {
        assert(out.deep_view() =~= Seq::<Seq<char>>::empty());
        assert(s@.skip(0) =~= s@);
        assert(out.deep_view() + comma_fields_of(s@) =~= comma_fields_of(s@));
    }
    while i < n
        invariant
            start <= i <= n,
            n == s@.len(),
            forall|j: int| start <= j < i ==> s@[j] != ',',
            out.deep_view() + comma_fields_of(s@.skip(start as int)) == comma_fields_of(s@),
            out@.len() + 1 <= comma_fields_of(s@).len(),
        decreases n - i,
    {
        if s.get_char(i) == ',' {
            let piece = s.substring_char(start, i);
            proof {
                let t = s@.skip(start as int);
                lemma_find_char_at(t, ',', i - start);
                assert(t.take(i - start) =~= s@.subrange(start as int, i as int));
                assert(t.skip(i - start + 1) =~= s@.skip(i + 1));
                assert(comma_fields_of(t) == seq![piece@] + comma_fields_of(s@.skip(i + 1)));
            }
            let ghost old_dv = out.deep_view();
            out.push(String::from_str(piece));
            proof {
                assert(out.deep_view() =~= old_dv + seq![piece@]);
                assert(out.deep_view() + comma_fields_of(s@.skip(i + 1)) =~= comma_fields_of(s@));
            }
            start = i + 1;
        }
        i = i + 1;
    }
    let piece = s.substring_char(start, n);
    proof {
        let t = s@.skip(start as int);
        lemma_find_char_at(t, ',', n - start);
        assert(piece@ =~= t);
        assert(comma_fields_of(t) == seq![t]);
    }
    let ghost old_dv = out.deep_view();
    out.push(String::from_str(piece));
    proof {
        assert(out.deep_view() =~= old_dv + seq![s@.skip(start as int)]);
        assert(out.deep_view() =~= comma_fields_of(s@));
    }
    out
}

/// The pieces joined with single commas between them, as
/// `[&str]::join(",")` computes it.
pub open spec fn joined_commas(ps: Seq<Seq<char>>) -> Seq<char>
    decreases ps.len(),
{
    if ps.len() == 0 {
        Seq::empty()
    } else if ps.len() == 1 {
        ps[0]
    } else {
        joined_commas(ps.drop_last()) + seq![','] + ps.last()
    }
}

/// Joining after prepending a piece prefixes that piece and a comma.
pub proof fn lemma_joined_commas_cons(x: Seq<char>, ps: Seq<Seq<char>>)
    requires
        ps.len() >= 1,
    ensures
        joined_commas(seq![x] + ps) == x + seq![','] + joined_commas(ps),
    decreases ps.len(),
{
    let whole = seq![x] + ps;
    if ps.len() == 1 {
        assert(whole.drop_last() =~= seq![x]);
        assert(joined_commas(seq![x]) == x);
        assert(joined_commas(whole) =~= x + seq![','] + ps[0]);
    } else {
        lemma_joined_commas_cons(x, ps.drop_last());
        assert(whole.drop_last() =~= seq![x] + ps.drop_last());
        assert(joined_commas(whole) =~= x + seq![','] + joined_commas(ps));
    }
}

/// Comma-joining as an executable function.
pub fn join_commas(v: &Vec<String>) -> (r: String)
    ensures
        r@ == joined_commas(v.deep_view()),
{
    let mut out = String::new();
    let mut i: usize = 0;
    while i < v.len()
        invariant
            i <= v@.len(),
            out@ == joined_commas(v.deep_view().take(i as int)),
        decreases v@.len() - i,
    {
        if i > 0 {
            out.append(",");
            proof {
                reveal_strlit(",");
                assert(","@ =~= seq![',']);
            }
        }
        out.append(v[i].as_str());
        proof {
            let dv = v.deep_view();
            assert(dv.take(i + 1).drop_last() =~= dv.take(i as int));
            assert(dv.take(i + 1).last() == dv[i as int]);
            if i == 0 {
                assert(out@ =~= joined_commas(dv.take(1)));
            }
        }
        i = i + 1;
    }
    proof {
        assert(v.deep_view().take(v@.len() as int) =~= v.deep_view());
    }
    out
}

/// The character for a single decimal digit.
pub open spec fn dec_digit(d: nat) -> char {
    if d == 0 {
        '0'
    } else if d == 1 {
        '1'
    } else if d == 2 {
        '2'
    } else if d == 3 {
        '3'
    } else if d == 4 {
        '4'
    } else if d == 5 {
        '5'
    } else if d == 6 {
        '6'
    } else if d == 7 {
        '7'
    } else if d == 8 {
        '8'
    } else {
        '9'
    }
}

/// The decimal rendering of `n`, most significant digit first, no sign and
/// no leading zeros (a single `'0'` for zero).
pub open spec fn dec_str(n: nat) -> Seq<char>
    decreases n,
{
    if n < 10 {
        seq![dec_digit(n)]
    } else {
        dec_str(n / 10) + seq![dec_digit(n % 10)]
    }
}

/// The one-character string for a decimal digit.
fn digit_str(d: usize) -> (r: &'static str)
    requires
        d < 10,
    ensures
        r@ == seq![dec_digit(d as nat)],
{
    proof {
        reveal_strlit("0");
        reveal_strlit("1");
        reveal_strlit("2");
        reveal_strlit("3");
        reveal_strlit("4");
        reveal_strlit("5");
        reveal_strlit("6");
        reveal_strlit("7");
        reveal_strlit("8");
        reveal_strlit("9");
    }
    let r = if d == 0 {
        "0"
    } else if d == 1 {
        "1"
    } else if d == 2 {
        "2"
    } else if d == 3 {
        "3"
    } else if d == 4 {
        "4"
    } else if d == 5 {
        "5"
    } else if d == 6 {
        "6"
    } else if d == 7 {
        "7"
    } else if d == 8 {
        "8"
    } else {
        "9"
    };
    proof {
        assert(r@ =~= seq![dec_digit(d as nat)]);
    }
    r
}

/// Decimal rendering as an executable function.
pub fn usize_to_string(n: usize) -> (r: String)
    ensures
        r@ == dec_str(n as nat),
    decreases n,
{
    if n < 10 {
        String::from_str(digit_str(n))
    } else {
        let mut s = usize_to_string(n / 10);
        s.append(digit_str(n % 10));
        s
    }
}

} // verus!
