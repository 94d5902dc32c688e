//! Reading the resident set size out of a Linux process status table (the
//! text of `/proc/self/status`), in which a line such as
//! `VmRSS:    12345 kB` gives it in kilobytes.
use vstd::prelude::*;
use crate::text::is_space;
use crate::text::is_space_char;
use crate::text::chars_of;

verus! {

/// `c` is an ASCII decimal digit.
pub open spec fn is_digit(c: char) -> bool {
    '0' <= c && c <= '9'
}

/// Every character of `s` is a decimal digit.
pub open spec fn all_digits(s: Seq<char>) -> bool {
    forall|i: int| 0 <= i < s.len() ==> is_digit(#[trigger] s[i])
}

/// The number that the decimal digits `s` write, most significant first.
pub open spec fn digits_value(s: Seq<char>) -> nat
    decreases s.len(),
{
    if s.len() == 0 {
        0
    } else {
        digits_value(s.drop_last()) * 10 + ((s.last() as int) - ('0' as int)) as nat
    }
}

/// What `str::parse::<usize>` gives: an optional `+` sign, then one or more
/// decimal digits whose value fits in a `usize`; otherwise no number.
pub open spec fn parse_usize(s: Seq<char>) -> Option<usize> {
    let digits = if s.len() > 0 && s[0] == '+' {
        s.drop_first()
    } else {
        s
    };
    if digits.len() > 0 && all_digits(digits) && digits_value(digits) <= usize::MAX {
        Some(digits_value(digits) as usize)
    } else {
        None
    }
}

/// The whitespace-separated fields of `s` (as `str::split_whitespace`
/// yields them), where `cur` is the part of a field already read.
pub open spec fn fields_from(s: Seq<char>, cur: Seq<char>) -> Seq<Seq<char>>
    decreases s.len(),
{
    if s.len() == 0 {
        if cur.len() > 0 {
            seq![cur]
        } else {
            seq![]
        }
    } else if is_space(s[0]) {
        (if cur.len() > 0 {
            seq![cur]
        } else {
            seq![]
        }) + fields_from(s.drop_first(), seq![])
    } else {
        fields_from(s.drop_first(), cur.push(s[0]))
    }
}

/// The whitespace-separated fields of `s`: its maximal runs of
/// non-whitespace characters, in order.
pub open spec fn fields(s: Seq<char>) -> Seq<Seq<char>> {
    fields_from(s, seq![])
}

/// `line` without one `\r` at its end.
pub open spec fn strip_cr(line: Seq<char>) -> Seq<char> {
    if line.len() > 0 && line.last() == '\r' {
        line.drop_last()
    } else {
        line
    }
}

/// The lines of `s` (as `str::lines` yields them), where `cur` is the part
/// of a line already read: lines end at `\n`, a line ended so loses one
/// `\r` before it, and a last line that is empty is not yielded.
pub open spec fn lines_from(s: Seq<char>, cur: Seq<char>) -> Seq<Seq<char>>
    decreases s.len(),
{
    if s.len() == 0 {
        if cur.len() > 0 {
            seq![cur]
        } else {
            seq![]
        }
    } else if s[0] == '\n' {
        seq![strip_cr(cur)] + lines_from(s.drop_first(), seq![])
    } else {
        lines_from(s.drop_first(), cur.push(s[0]))
    }
}

/// The lines of `s`.
pub open spec fn lines(s: Seq<char>) -> Seq<Seq<char>> {
    lines_from(s, seq![])
}

/// The key that opens the resident set size line.
pub open spec fn rss_key() -> Seq<char> {
    seq!['V', 'm', 'R', 'S', 'S', ':']
}

/// The size a single line gives: a line that starts with `VmRSS:` and whose
/// second whitespace-separated field reads as a `usize`.
pub open spec fn line_rss_kb(line: Seq<char>) -> Option<usize> {
    if line.len() >= 6 && line.take(6) == rss_key() && fields(line).len() > 1 {
        parse_usize(fields(line)[1])
    } else {
        None
    }
}

/// The size given by the first line of `lines` that gives one.
pub open spec fn first_rss_kb(lines: Seq<Seq<char>>) -> Option<usize>
    decreases lines.len(),
{
    if lines.len() == 0 {
        None
    } else {
        match line_rss_kb(lines[0]) {
            Some(v) => Some(v),
            None => first_rss_kb(lines.drop_first()),
        }
    }
}

/// The resident set size, in kilobytes, that a status table gives.
pub open spec fn status_rss_kb(status: Seq<char>) -> Option<usize> {
    first_rss_kb(lines(status))
}

/// The value of a prefix of a digit string is at most the value of the
/// whole string.
proof fn lemma_digits_value_prefix(s: Seq<char>, j: int)
    requires
        0 <= j <= s.len(),
        all_digits(s),
    ensures
        digits_value(s.take(j)) <= digits_value(s),
    decreases s.len(),
{
    if j == s.len() {
        assert(s.take(j) =~= s);
    } else {
        let t = s.drop_last();
        assert(all_digits(t)) by {
            assert forall|i: int| 0 <= i < t.len() implies is_digit(#[trigger] t[i]) by {
                assert(t[i] == s[i]);
            }
        }
        lemma_digits_value_prefix(t, j);
        assert(t.take(j) =~= s.take(j));
        assert(is_digit(s[s.len() - 1]));
    }
}

/// Reads the characters `cs[a..b]` as `str::parse::<usize>` does.
fn parse_usize_range(cs: &Vec<char>, a: usize, b: usize) -> (res: Option<usize>)
    requires
        a <= b <= cs@.len(),
    ensures
        res == parse_usize(cs@.subrange(a as int, b as int)),
{
    let ghost s = cs@.subrange(a as int, b as int);
    let mut start = a;
    if start < b && cs[start] == '+' {
        start += 1;
    }
    let ghost digits = cs@.subrange(start as int, b as int);
    assert(digits =~= (if s.len() > 0 && s[0] == '+' {
        s.drop_first()
    } else {
        s
    }));
    if start == b {
        return None;
    }
    let mut acc: usize = 0;
    let mut i = start;
    assert(cs@.subrange(start as int, start as int) =~= Seq::<char>::empty());
    while i < b
        invariant
            a <= start <= i <= b <= cs@.len(),
            start < b,
            digits == cs@.subrange(start as int, b as int),
            digits == (if s.len() > 0 && s[0] == '+' {
                s.drop_first()
            } else {
                s
            }),
            s == cs@.subrange(a as int, b as int),
            all_digits(cs@.subrange(start as int, i as int)),
            acc == digits_value(cs@.subrange(start as int, i as int)),
        decreases b - i,
    {
        let ghost prefix = cs@.subrange(start as int, i as int);
        let ghost next = cs@.subrange(start as int, i + 1);
        assert(next.drop_last() =~= prefix);
        assert(prefix =~= digits.take(i - start));
        assert(next =~= digits.take(i + 1 - start));
        let c = cs[i];
        if !('0' <= c && c <= '9') {
            assert(digits[i - start] == c);
            return None;
        }
        let d = ((c as u32) - ('0' as u32)) as usize;
        assert(next.last() == c);
        assert(all_digits(next)) by {
            assert forall|k: int| 0 <= k < next.len() implies is_digit(#[trigger] next[k]) by {
                if k < prefix.len() {
                    assert(next[k] == prefix[k]);
                }
            }
        }
        let grown = match acc.checked_mul(10) {
            Some(m) => m.checked_add(d),
            None => None,
        };
        match grown {
            Some(v) => {
                acc = v;
            },
            None => {
                proof {
                    if all_digits(digits) {
                        lemma_digits_value_prefix(digits, i + 1 - start);
                    }
                }
                return None;
            },
        }
        i += 1;
    }
    assert(cs@.subrange(start as int, i as int) =~= digits);
    Some(acc)
}

/// Reads `s` as `str::parse::<usize>` does.
pub fn parse_decimal(s: &str) -> (res: Option<usize>)
    ensures
        res == parse_usize(s@),
{
    let cs = chars_of(s);
    assert(cs@.subrange(0, cs@.len() as int) =~= cs@);
    parse_usize_range(&cs, 0, cs.len())
}


/// The texts that the index ranges `ranges` mark out in `cs`.
pub open spec fn range_texts(cs: Seq<char>, ranges: Seq<(usize, usize)>) -> Seq<Seq<char>> {
    Seq::new(ranges.len(), |k: int| cs.subrange(ranges[k].0 as int, ranges[k].1 as int))
}

/// The index ranges of the whitespace-separated fields of `cs[a..b]`.
fn field_ranges(cs: &Vec<char>, a: usize, b: usize) -> (res: Vec<(usize, usize)>)
    requires
        a <= b <= cs@.len(),
    ensures
        range_texts(cs@, res@) == fields(cs@.subrange(a as int, b as int)),
        forall|k: int| 0 <= k < res@.len() ==> a <= #[trigger] res@[k].0 <= res@[k].1 <= b,
{
    let mut ranges: Vec<(usize, usize)> = Vec::new();
    let mut ws = a;
    let mut i = a;
    assert(cs@.subrange(a as int, a as int) =~= Seq::<char>::empty());
    assert(range_texts(cs@, ranges@) =~= Seq::<Seq<char>>::empty());
    while i < b
        invariant
            a <= ws <= i <= b <= cs@.len(),
            fields(cs@.subrange(a as int, b as int)) == range_texts(cs@, ranges@) + fields_from(
                cs@.subrange(i as int, b as int),
                cs@.subrange(ws as int, i as int),
            ),
            forall|k: int| 0 <= k < ranges@.len() ==> a <= #[trigger] ranges@[k].0 <= ranges@[k].1 <= b,
        decreases b - i,
    {
        let ghost rest = cs@.subrange(i as int, b as int);
        let ghost cur = cs@.subrange(ws as int, i as int);
        let ghost old_ranges = ranges@;
        assert(rest[0] == cs@[i as int]);
        assert(rest.drop_first() =~= cs@.subrange(i + 1, b as int));
        if is_space_char(cs[i]) {
            if ws < i {
                ranges.push((ws, i));
                assert(range_texts(cs@, ranges@) =~= range_texts(cs@, old_ranges) + seq![cur]);
            } else {
                assert(cur.len() == 0);
            }
            ws = i + 1;
            assert(cs@.subrange(ws as int, ws as int) =~= Seq::<char>::empty());
        } else {
            assert(cur.push(cs@[i as int]) =~= cs@.subrange(ws as int, i + 1));
        }
        i += 1;
    }
    let ghost cur = cs@.subrange(ws as int, b as int);
    let ghost old_ranges = ranges@;
    assert(cs@.subrange(b as int, b as int) =~= Seq::<char>::empty());
    if ws < b {
        ranges.push((ws, b));
        assert(range_texts(cs@, ranges@) =~= range_texts(cs@, old_ranges) + seq![cur]);
    } else {
        assert(range_texts(cs@, ranges@) =~= range_texts(cs@, old_ranges) + Seq::<Seq<char>>::empty());
    }
    ranges
}

/// The size that the line `cs[a..b]` gives.
fn line_rss_kb_range(cs: &Vec<char>, a: usize, b: usize) -> (res: Option<usize>)
    requires
        a <= b <= cs@.len(),
    ensures
        res == line_rss_kb(cs@.subrange(a as int, b as int)),
{
    let ghost line = cs@.subrange(a as int, b as int);
    if b - a < 6 {
        return None;
    }
    let key_matches = cs[a] == 'V' && cs[a + 1] == 'm' && cs[a + 2] == 'R' && cs[a + 3] == 'S'
        && cs[a + 4] == 'S' && cs[a + 5] == ':';
    assert(line.take(6) == rss_key() <==> key_matches) by {
        let t = line.take(6);
        let k = rss_key();
        assert(t[0] == cs@[a as int] && t[1] == cs@[a + 1] && t[2] == cs@[a + 2]);
        assert(t[3] == cs@[a + 3] && t[4] == cs@[a + 4] && t[5] == cs@[a + 5]);
        assert(k[0] == 'V' && k[1] == 'm' && k[2] == 'R' && k[3] == 'S' && k[4] == 'S' && k[5]
            == ':');
        if key_matches {
            assert(t =~= k);
        }
    }
    if !key_matches {
        return None;
    }
    let ranges = field_ranges(cs, a, b);
    if ranges.len() < 2 {
        return None;
    }
    let (fa, fb) = ranges[1];
    assert(range_texts(cs@, ranges@)[1] == cs@.subrange(fa as int, fb as int));
    parse_usize_range(cs, fa, fb)
}

/// The resident set size, in kilobytes, that the status table `status`
/// gives: the first line that starts with `VmRSS:` and whose second field
/// reads as a number. `None` where no line gives one.
pub fn vm_rss_kb(status: &str) -> (res: Option<usize>)
    ensures
        res == status_rss_kb(status@),
{
    let cs = chars_of(status);
    let n = cs.len();
    let mut ls: usize = 0;
    let mut i: usize = 0;
    assert(cs@.subrange(0, n as int) =~= status@);
    assert(cs@.subrange(0, 0) =~= Seq::<char>::empty());
    while i < n
        invariant
            ls <= i <= n,
            n == cs@.len(),
            status_rss_kb(status@) == first_rss_kb(
                lines_from(cs@.subrange(i as int, n as int), cs@.subrange(ls as int, i as int)),
            ),
        decreases n - i,
    {
        let ghost rest = cs@.subrange(i as int, n as int);
        let ghost cur = cs@.subrange(ls as int, i as int);
        assert(rest[0] == cs@[i as int]);
        assert(rest.drop_first() =~= cs@.subrange(i + 1, n as int));
        if cs[i] == '\n' {
            let le = if i > ls && cs[i - 1] == '\r' {
                i - 1
            } else {
                i
            };
            assert(strip_cr(cur) =~= cs@.subrange(ls as int, le as int));
            let ghost ls_lines = lines_from(rest, cur);
            let ghost next_lines = lines_from(cs@.subrange(i + 1, n as int), Seq::<char>::empty());
            assert(ls_lines == seq![strip_cr(cur)] + next_lines);
            assert(ls_lines[0] == strip_cr(cur));
            assert(ls_lines.drop_first() =~= next_lines);
            match line_rss_kb_range(&cs, ls, le) {
                Some(v) => {
                    return Some(v);
                },
                None => {},
            }
            ls = i + 1;
            assert(cs@.subrange(ls as int, ls as int) =~= Seq::<char>::empty());
        } else {
            assert(cur.push(cs@[i as int]) =~= cs@.subrange(ls as int, i + 1));
        }
        i += 1;
    }
    let ghost cur = cs@.subrange(ls as int, n as int);
    assert(cs@.subrange(n as int, n as int) =~= Seq::<char>::empty());
    proof {
        let tail = cs@.subrange(n as int, n as int);
        assert(tail.len() == 0);
        if cur.len() > 0 {
            assert(lines_from(tail, cur) == seq![cur]);
            assert(seq![cur][0] == cur);
            assert(seq![cur].drop_first() =~= Seq::<Seq<char>>::empty());
            assert(first_rss_kb(Seq::<Seq<char>>::empty()) is None);
        } else {
            assert(lines_from(tail, cur) == Seq::<Seq<char>>::empty());
        }
    }
    line_rss_kb_range(&cs, ls, n)
}


/// The digit character for `d < 10`.
pub open spec fn digit_char(d: nat) -> char {
    if d == 0 {
        '0'
    } else if d == 1 {
        '1'
    } else if d == 2 {
        '2'
    } else if d == 3 {
        '3'
    } else if d == 4 {
        '4'
    } else if d == 5 {
        '5'
    } else if d == 6 {
        '6'
    } else if d == 7 {
        '7'
    } else if d == 8 {
        '8'
    } else {
        '9'
    }
}

/// `n` written in decimal, most significant digit first.
pub open spec fn decimal(n: nat) -> Seq<char>
    decreases n,
{
    if n < 10 {
        seq![digit_char(n)]
    } else {
        decimal(n / 10).push(digit_char(n % 10))
    }
}

/// A status line that reports `n` kilobytes: `VmRSS:`, a tab, the number in
/// decimal, and ` kB`.
pub open spec fn rss_line(n: nat) -> Seq<char> {
    rss_key() + seq!['\t'] + decimal(n) + seq![' ', 'k', 'B']
}

/// The text made of the lines `ls`, each ended by a line feed.
pub open spec fn joined_lines(ls: Seq<Seq<char>>) -> Seq<char>
    decreases ls.len(),
{
    if ls.len() == 0 {
        Seq::empty()
    } else {
        (ls[0] + seq!['\n']) + joined_lines(ls.drop_first())
    }
}

/// `l` is a single line that does not start with `VmRSS:`.
pub open spec fn other_line(l: Seq<char>) -> bool {
    &&& forall|i: int| 0 <= i < l.len() ==> #[trigger] l[i] != '\n'
    &&& !(l.len() >= 6 && l.take(6) == rss_key())
}

/// The digit character for `d` is a digit of value `d`.
proof fn lemma_digit_char(d: nat)
    requires
        d < 10,
    ensures
        is_digit(digit_char(d)),
        (digit_char(d) as int) - ('0' as int) == d,
{
}

/// Writing a number in decimal and reading it back gives the number.
proof fn lemma_decimal_reads_back(n: nat)
    ensures
        decimal(n).len() > 0,
        all_digits(decimal(n)),
        digits_value(decimal(n)) == n,
    decreases n,
{
    if n < 10 {
        lemma_digit_char(n);
        assert(decimal(n).drop_last() =~= Seq::<char>::empty());
        assert(decimal(n).last() == digit_char(n));
        assert(digits_value(Seq::<char>::empty()) == 0);
        assert(all_digits(decimal(n)));
    } else {
        lemma_digit_char(n % 10);
        lemma_decimal_reads_back(n / 10);
        let d = decimal(n / 10);
        assert(decimal(n).drop_last() =~= d);
        assert forall|i: int| 0 <= i < decimal(n).len() implies is_digit(
            #[trigger] decimal(n)[i],
        ) by {
            if i < d.len() {
                assert(decimal(n)[i] == d[i]);
            }
        }
        assert(decimal(n).last() == digit_char(n % 10));
        assert(digits_value(decimal(n)) == digits_value(d) * 10 + n % 10);
        assert((n / 10) * 10 + n % 10 == n);
    }
}

/// A number written in decimal reads back as itself when it fits in a
/// `usize`, and reads as nothing when it does not.
pub proof fn lemma_parse_decimal_round_trip(n: nat)
    ensures
        n <= usize::MAX ==> parse_usize(decimal(n)) == Some(n as usize),
        n > usize::MAX ==> parse_usize(decimal(n)) is None,
{
    lemma_decimal_reads_back(n);
    assert(is_digit(decimal(n)[0]));
}

/// Only an optional leading `+` and decimal digits are read as a number.
pub proof fn lemma_parse_only_digits(s: Seq<char>)
    ensures
        parse_usize(s) is Some ==> s.len() > 0 && forall|i: int|
            0 <= i < s.len() ==> is_digit(#[trigger] s[i]) || (i == 0 && s[i] == '+'),
{
    if parse_usize(s) is Some && s.len() > 0 && s[0] == '+' {
        let d = s.drop_first();
        assert forall|i: int| 0 <= i < s.len() implies is_digit(#[trigger] s[i]) || (i == 0 && s[i]
            == '+') by {
            if i > 0 {
                assert(s[i] == d[i - 1]);
            }
        }
    }
}

/// Reading a line up to its line feed yields that line and goes on with
/// the rest of the text.
proof fn lemma_lines_over_line(l: Seq<char>, cur: Seq<char>, rest: Seq<char>)
    requires
        forall|i: int| 0 <= i < l.len() ==> #[trigger] l[i] != '\n',
    ensures
        lines_from(l + seq!['\n'] + rest, cur) == seq![strip_cr(cur + l)] + lines_from(
            rest,
            Seq::empty(),
        ),
    decreases l.len(),
{
    let s = l + seq!['\n'] + rest;
    if l.len() == 0 {
        assert(s[0] == '\n');
        assert(s.drop_first() =~= rest);
        assert(cur + l =~= cur);
    } else {
        let l2 = l.drop_first();
        assert(s[0] == l[0]);
        assert(s.drop_first() =~= l2 + seq!['\n'] + rest);
        assert(cur.push(l[0]) + l2 =~= cur + l);
        assert forall|i: int| 0 <= i < l2.len() implies #[trigger] l2[i] != '\n' by {
            assert(l2[i] == l[i + 1]);
        }
        lemma_lines_over_line(l2, cur.push(l[0]), rest);
    }
}

/// Lines that do not start with `VmRSS:` are passed over.
proof fn lemma_other_lines_passed_over(ls: Seq<Seq<char>>, q: Seq<char>)
    requires
        forall|k: int| 0 <= k < ls.len() ==> other_line(#[trigger] ls[k]),
    ensures
        first_rss_kb(lines(joined_lines(ls) + q)) == first_rss_kb(lines(q)),
    decreases ls.len(),
{
    if ls.len() == 0 {
        assert(joined_lines(ls) + q =~= q);
    } else {
        let l = ls[0];
        let rest = ls.drop_first();
        assert(other_line(l));
        assert forall|k: int| 0 <= k < rest.len() implies other_line(#[trigger] rest[k]) by {
            assert(rest[k] == ls[k + 1]);
        }
        lemma_other_lines_passed_over(rest, q);
        assert(joined_lines(ls) + q =~= l + seq!['\n'] + (joined_lines(rest) + q));
        lemma_lines_over_line(l, Seq::empty(), joined_lines(rest) + q);
        assert(Seq::<char>::empty() + l =~= l);
        let first = strip_cr(l);
        assert(line_rss_kb(first) is None) by {
            if first.len() >= 6 && first.take(6) == rss_key() {
                assert(l.take(6) =~= first.take(6));
            }
        }
        let all = seq![first] + lines(joined_lines(rest) + q);
        assert(all[0] == first);
        assert(all.drop_first() =~= lines(joined_lines(rest) + q));
    }
}

/// Reading the fields over a word with no whitespace adds the word to the
/// field being read.
proof fn lemma_fields_over_word(w: Seq<char>, cur: Seq<char>, rest: Seq<char>)
    requires
        forall|i: int| 0 <= i < w.len() ==> !is_space(#[trigger] w[i]),
    ensures
        fields_from(w + rest, cur) == fields_from(rest, cur + w),
    decreases w.len(),
{
    if w.len() == 0 {
        assert(w + rest =~= rest);
        assert(cur + w =~= cur);
    } else {
        let w2 = w.drop_first();
        assert((w + rest)[0] == w[0]);
        assert((w + rest).drop_first() =~= w2 + rest);
        assert(cur.push(w[0]) + w2 =~= cur + w);
        assert forall|i: int| 0 <= i < w2.len() implies !is_space(#[trigger] w2[i]) by {
            assert(w2[i] == w[i + 1]);
        }
        lemma_fields_over_word(w2, cur.push(w[0]), rest);
    }
}

/// The line `rss_line(n)` gives `n`.
proof fn lemma_rss_line_gives(n: usize)
    ensures
        line_rss_kb(rss_line(n as nat)) == Some(n),
{
    let key = rss_key();
    let d = decimal(n as nat);
    let kb = seq!['k', 'B'];
    let x = rss_line(n as nat);
    lemma_decimal_reads_back(n as nat);
    assert forall|i: int| 0 <= i < key.len() implies !is_space(#[trigger] key[i]) by {}
    assert forall|i: int| 0 <= i < d.len() implies !is_space(#[trigger] d[i]) by {
        assert(is_digit(d[i]));
    }
    assert forall|i: int| 0 <= i < kb.len() implies !is_space(#[trigger] kb[i]) by {}
    let r1 = d + (seq![' '] + kb);
    assert(x =~= key + (seq!['\t'] + r1));
    lemma_fields_over_word(key, Seq::empty(), seq!['\t'] + r1);
    assert(Seq::<char>::empty() + key =~= key);
    let t1 = seq!['\t'] + r1;
    assert(t1[0] == '\t');
    assert(t1.drop_first() =~= r1);
    lemma_fields_over_word(d, Seq::empty(), seq![' '] + kb);
    assert(Seq::<char>::empty() + d =~= d);
    let t2 = seq![' '] + kb;
    assert(t2[0] == ' ');
    assert(t2.drop_first() =~= kb);
    lemma_fields_over_word(kb, Seq::empty(), Seq::empty());
    assert(kb + Seq::<char>::empty() =~= kb);
    assert(Seq::<char>::empty() + kb =~= kb);
    let e = Seq::<char>::empty();
    assert(fields_from(e, kb) == seq![kb]);
    assert(fields_from(kb, e) == seq![kb]);
    assert(fields_from(t2, d) == seq![d] + seq![kb]);
    assert(fields_from(r1, e) == seq![d] + seq![kb]);
    assert(fields_from(t1, key) == seq![key] + (seq![d] + seq![kb]));
    assert(fields(x) == seq![key] + (seq![d] + seq![kb]));
    assert(fields(x)[1] == d);
    assert(x.take(6) =~= key);
    assert(d[0] != '+') by {
        assert(is_digit(d[0]));
    }
}

/// However many other lines come before it, a `VmRSS:` line that reports
/// `n` kilobytes is found: the table made of the lines `before` (none of
/// which starts with `VmRSS:`), then `VmRSS:\t<n> kB` and a line feed,
/// gives `n`.
pub proof fn lemma_rss_found_after_other_lines(before: Seq<Seq<char>>, n: usize)
    requires
        forall|k: int| 0 <= k < before.len() ==> other_line(#[trigger] before[k]),
    ensures
        status_rss_kb(joined_lines(before) + rss_line(n as nat) + seq!['\n']) == Some(n),
{
    let q = rss_line(n as nat) + seq!['\n'];
    assert(joined_lines(before) + rss_line(n as nat) + seq!['\n'] =~= joined_lines(before) + q);
    lemma_other_lines_passed_over(before, q);
    let x = rss_line(n as nat);
    lemma_decimal_reads_back(n as nat);
    assert forall|i: int| 0 <= i < x.len() implies #[trigger] x[i] != '\n' by {
        let d = decimal(n as nat);
        if 7 <= i < 7 + d.len() {
            assert(x[i] == d[i - 7]);
            assert(is_digit(d[i - 7]));
        }
    }
    lemma_lines_over_line(x, Seq::empty(), Seq::empty());
    assert(q =~= x + seq!['\n'] + Seq::<char>::empty());
    assert(Seq::<char>::empty() + x =~= x);
    assert(strip_cr(x) == x) by {
        assert(x.last() == 'B');
    }
    let e = Seq::<char>::empty();
    assert(lines_from(e, e) == Seq::<Seq<char>>::empty());
    assert(lines(q) == seq![x] + Seq::<Seq<char>>::empty());
    assert(lines(q) =~= seq![x]);
    lemma_rss_line_gives(n);
    assert(seq![x][0] == x);
}

} // verus!
