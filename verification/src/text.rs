//! Character-level helpers: Unicode whitespace, trimming and
//! whitespace-separated fields.
use vstd::prelude::*;

verus! {

/// The characters with the Unicode `White_Space` property, which is the set
/// that `char::is_whitespace` tests for.
pub open spec fn is_space(c: char) -> bool {
    ||| ('\u{9}' <= c && c <= '\u{d}')
    ||| c == ' '
    ||| c == '\u{85}'
    ||| c == '\u{a0}'
    ||| c == '\u{1680}'
    ||| ('\u{2000}' <= c && c <= '\u{200a}')
    ||| c == '\u{2028}'
    ||| c == '\u{2029}'
    ||| c == '\u{202f}'
    ||| c == '\u{205f}'
    ||| c == '\u{3000}'
}

/// Tests whether `c` is a Unicode whitespace character.
pub fn is_space_char(c: char) -> (res: bool)
    ensures
        res == is_space(c),
{
    ('\u{9}' <= c && c <= '\u{d}') || c == ' ' || c == '\u{85}' || c == '\u{a0}' || c == '\u{1680}'
        || ('\u{2000}' <= c && c <= '\u{200a}') || c == '\u{2028}' || c == '\u{2029}' || c
        == '\u{202f}' || c == '\u{205f}' || c == '\u{3000}'
}

/// The characters of `s`, in order.
pub fn chars_of(s: &str) -> (res: Vec<char>)
    ensures
        res@ == s@,
{
    broadcast use vstd::string::group_string_axioms;
    let mut res: Vec<char> = Vec::new();
    for c in it: s.chars()
        invariant
            res@ == it.seq().take(it.index() as int),
            it.seq() == s@,
    {
        res.push(c);
    }
    res
}


/// `s` without its leading whitespace.
pub open spec fn trim_start(s: Seq<char>) -> Seq<char>
    decreases s.len(),
{
    if s.len() > 0 && is_space(s[0]) {
        trim_start(s.drop_first())
    } else {
        s
    }
}

/// `s` without its trailing whitespace.
pub open spec fn trim_end(s: Seq<char>) -> Seq<char>
    decreases s.len(),
{
    if s.len() > 0 && is_space(s.last()) {
        trim_end(s.drop_last())
    } else {
        s
    }
}

/// `s` without leading and trailing whitespace, as `str::trim` gives it.
pub open spec fn trimmed(s: Seq<char>) -> Seq<char> {
    trim_end(trim_start(s))
}

/// Dropping the first `a` characters, all of them whitespace and followed
/// by a non-whitespace character or by nothing, is what `trim_start` does.
proof fn lemma_trim_start_skip(s: Seq<char>, a: int)
    requires
        0 <= a <= s.len(),
        forall|i: int| 0 <= i < a ==> is_space(#[trigger] s[i]),
        a == s.len() || !is_space(s[a]),
    ensures
        trim_start(s) == s.skip(a),
    decreases a,
{
    if a == 0 {
        assert(s.skip(0) =~= s);
    } else {
        assert(is_space(s[0]));
        let t = s.drop_first();
        assert forall|i: int| 0 <= i < a - 1 implies is_space(#[trigger] t[i]) by {
            assert(t[i] == s[i + 1]);
        }
        lemma_trim_start_skip(t, a - 1);
        assert(t.skip(a - 1) =~= s.skip(a));
    }
}

/// Keeping the first `k` characters, when all after them are whitespace and
/// the last kept one is not, is what `trim_end` does.
proof fn lemma_trim_end_take(s: Seq<char>, k: int)
    requires
        0 <= k <= s.len(),
        forall|i: int| k <= i < s.len() ==> is_space(#[trigger] s[i]),
        k == 0 || !is_space(s[k - 1]),
    ensures
        trim_end(s) == s.take(k),
    decreases s.len() - k,
{
    if k == s.len() {
        assert(s.take(k) =~= s);
    } else {
        assert(is_space(s.last()));
        let t = s.drop_last();
        assert forall|i: int| k <= i < t.len() implies is_space(#[trigger] t[i]) by {
            assert(t[i] == s[i]);
        }
        lemma_trim_end_take(t, k);
        assert(t.take(k) =~= s.take(k));
    }
}

/// What `trim_start` leaves is a suffix of its input that does not begin
/// with whitespace.
proof fn lemma_trim_start_suffix(s: Seq<char>)
    ensures
        trim_start(s).len() <= s.len(),
        trim_start(s) == s.skip(s.len() - trim_start(s).len()),
        trim_start(s).len() > 0 ==> !is_space(trim_start(s)[0]),
        forall|i: int| 0 <= i < s.len() - trim_start(s).len() ==> is_space(#[trigger] s[i]),
    decreases s.len(),
{
    if s.len() > 0 && is_space(s[0]) {
        lemma_trim_start_suffix(s.drop_first());
        assert forall|i: int| 0 <= i < s.len() - trim_start(s).len() implies is_space(
            #[trigger] s[i],
        ) by {
            if i > 0 {
                assert(s[i] == s.drop_first()[i - 1]);
            }
        }
        assert(s.drop_first().skip(s.drop_first().len() - trim_start(s).len()) =~= s.skip(
            s.len() - trim_start(s).len(),
        ));
    } else {
        assert(s.skip(0) =~= s);
    }
}

/// What `trim_end` leaves is a prefix of its input that does not end with
/// whitespace.
proof fn lemma_trim_end_prefix(s: Seq<char>)
    ensures
        trim_end(s).len() <= s.len(),
        trim_end(s) == s.take(trim_end(s).len() as int),
        trim_end(s).len() > 0 ==> !is_space(trim_end(s).last()),
        forall|i: int| trim_end(s).len() <= i < s.len() ==> is_space(#[trigger] s[i]),
    decreases s.len(),
{
    if s.len() > 0 && is_space(s.last()) {
        lemma_trim_end_prefix(s.drop_last());
        assert forall|i: int| trim_end(s).len() <= i < s.len() implies is_space(#[trigger] s[i]) by {
            if i < s.len() - 1 {
                assert(s[i] == s.drop_last()[i]);
            }
        }
        assert(s.drop_last().take(trim_end(s).len() as int) =~= s.take(trim_end(s).len() as int));
    } else {
        assert(s.take(s.len() as int) =~= s);
    }
}

/// A trimmed text neither begins nor ends with whitespace.
pub proof fn lemma_trimmed_has_no_outer_space(s: Seq<char>)
    ensures
        trimmed(s).len() > 0 ==> !is_space(trimmed(s)[0]),
        trimmed(s).len() > 0 ==> !is_space(trimmed(s).last()),
{
    let u = trim_start(s);
    lemma_trim_start_suffix(s);
    lemma_trim_end_prefix(u);
    if trimmed(s).len() > 0 {
        assert(trimmed(s)[0] == u[0]);
    }
}

/// Trimming removes only outer whitespace: the trimmed text is the part
/// `s[a..b]` of `s` for some `a <= b`, and every character before `a` and
/// from `b` on is whitespace. The returned pair is `(a, b)`.
pub proof fn lemma_trimmed_is_inner_part(s: Seq<char>) -> (ab: (int, int))
    ensures
        0 <= ab.0 <= ab.1 <= s.len(),
        trimmed(s) == s.subrange(ab.0, ab.1),
        forall|i: int| 0 <= i < ab.0 ==> is_space(#[trigger] s[i]),
        forall|i: int| ab.1 <= i < s.len() ==> is_space(#[trigger] s[i]),
{
    let u = trim_start(s);
    lemma_trim_start_suffix(s);
    lemma_trim_end_prefix(u);
    let a = s.len() - u.len();
    let k = trim_end(u).len() as int;
    assert(u =~= s.skip(a));
    assert(trimmed(s) =~= s.subrange(a, a + k));
    assert forall|i: int| a + k <= i < s.len() implies is_space(#[trigger] s[i]) by {
        assert(s[i] == u[i - a]);
    }
    (a, a + k)
}

/// Trimming a trimmed text changes nothing.
pub proof fn lemma_trimmed_idempotent(s: Seq<char>)
    ensures
        trimmed(trimmed(s)) == trimmed(s),
{
    let t = trimmed(s);
    lemma_trimmed_has_no_outer_space(s);
    lemma_trim_start_skip(t, 0);
    assert(t.skip(0) =~= t);
    lemma_trim_end_take(t, t.len() as int);
    assert(t.take(t.len() as int) =~= t);
}

/// The text `s` without leading and trailing whitespace.
pub fn trim_whitespace(s: &str) -> (res: String)
    ensures
        res@ == trimmed(s@),
{
    let cs = chars_of(s);
    let n = cs.len();
    let mut a: usize = 0;
    while a < n && is_space_char(cs[a])
        invariant
            a <= n,
            n == cs@.len(),
            cs@ == s@,
            forall|i: int| 0 <= i < a ==> is_space(#[trigger] cs@[i]),
        decreases n - a,
    {
        a += 1;
    }
    let mut b: usize = n;
    while b > a && is_space_char(cs[b - 1])
        invariant
            a <= b <= n,
            n == cs@.len(),
            cs@ == s@,
            forall|i: int| b <= i < n ==> is_space(#[trigger] cs@[i]),
        decreases b,
    {
        b -= 1;
    }
    proof {
        lemma_trim_start_skip(s@, a as int);
        let t = s@.skip(a as int);
        assert forall|i: int| (b - a) <= i < t.len() implies is_space(#[trigger] t[i]) by {
            assert(t[i] == s@[a + i]);
        }
        if b > a {
            assert(t[b - a - 1] == s@[b - 1]);
        }
        lemma_trim_end_take(t, (b - a) as int);
        assert(t.take((b - a) as int) =~= s@.subrange(a as int, b as int));
    }
    String::from_str(s.substring_char(a, b))
}


/// A space or a tab.
pub open spec fn is_blank(c: char) -> bool {
    c == ' ' || c == '\t'
}

/// `s` with each run of spaces and tabs replaced by one space (what
/// `Regex::replace_all` gives for the expression `[ \t]+` and the
/// replacement `" "`): a blank that follows a blank is dropped, any other
/// blank becomes a space.
pub open spec fn collapse_blanks(s: Seq<char>) -> Seq<char>
    decreases s.len(),
{
    if s.len() == 0 {
        s
    } else {
        let r = collapse_blanks(s.drop_last());
        if is_blank(s.last()) {
            if s.len() >= 2 && is_blank(s[s.len() - 2]) {
                r
            } else {
                r.push(' ')
            }
        } else {
            r.push(s.last())
        }
    }
}

/// `s` with each run of three or more line feeds replaced by two (what
/// `Regex::replace_all` gives for the expression `\n{3,}` and the
/// replacement `"\n\n"`): a line feed that follows two line feeds is
/// dropped.
pub open spec fn collapse_line_breaks(s: Seq<char>) -> Seq<char>
    decreases s.len(),
{
    if s.len() == 0 {
        s
    } else {
        let r = collapse_line_breaks(s.drop_last());
        if s.last() == '\n' && s.len() >= 3 && s[s.len() - 2] == '\n' && s[s.len() - 3] == '\n' {
            r
        } else {
            r.push(s.last())
        }
    }
}

/// No two neighbouring characters of `s` are both spaces or tabs.
pub open spec fn no_blank_pair(s: Seq<char>) -> bool {
    forall|i: int| 0 <= i && i + 1 < s.len() ==> !(is_blank(#[trigger] s[i]) && is_blank(s[i + 1]))
}

/// No three neighbouring characters of `s` are all line feeds.
pub open spec fn no_line_feed_triple(s: Seq<char>) -> bool {
    forall|i: int|
        0 <= i && i + 2 < s.len() ==> !(#[trigger] s[i] == '\n' && s[i + 1] == '\n' && s[i + 2]
            == '\n')
}

/// `s` holds no tab.
pub open spec fn has_no_tab(s: Seq<char>) -> bool {
    forall|i: int| 0 <= i < s.len() ==> #[trigger] s[i] != '\t'
}

/// The characters of `s` that are not spaces or tabs, in order.
pub open spec fn without_blanks(s: Seq<char>) -> Seq<char>
    decreases s.len(),
{
    if s.len() == 0 {
        s
    } else if is_blank(s.last()) {
        without_blanks(s.drop_last())
    } else {
        without_blanks(s.drop_last()).push(s.last())
    }
}

/// The characters of `s` that are not line feeds, in order.
pub open spec fn without_line_feeds(s: Seq<char>) -> Seq<char>
    decreases s.len(),
{
    if s.len() == 0 {
        s
    } else if s.last() == '\n' {
        without_line_feeds(s.drop_last())
    } else {
        without_line_feeds(s.drop_last()).push(s.last())
    }
}

/// Collapsing blanks keeps the text empty or not, and ends it with a blank
/// exactly where the text ended with one.
proof fn lemma_collapse_blanks_last(s: Seq<char>)
    ensures
        collapse_blanks(s).len() == 0 <==> s.len() == 0,
        s.len() > 0 ==> (is_blank(collapse_blanks(s).last()) <==> is_blank(s.last())),
    decreases s.len(),
{
    if s.len() > 0 {
        lemma_collapse_blanks_last(s.drop_last());
        if s.len() >= 2 {
            assert(s.drop_last().last() == s[s.len() - 2]);
        }
    }
}

/// After collapsing blanks, no space or tab follows another, and no tab is
/// left.
pub proof fn lemma_collapse_blanks_result(s: Seq<char>)
    ensures
        no_blank_pair(collapse_blanks(s)),
        has_no_tab(collapse_blanks(s)),
    decreases s.len(),
{
    if s.len() > 0 {
        let t = s.drop_last();
        let r = collapse_blanks(t);
        lemma_collapse_blanks_result(t);
        lemma_collapse_blanks_last(t);
        let out = collapse_blanks(s);
        if out.len() == r.len() + 1 {
            let x = out.last();
            assert(out =~= r.push(x));
            assert forall|i: int| 0 <= i && i + 1 < out.len() implies !(is_blank(#[trigger] out[i])
                && is_blank(out[i + 1])) by {
                if i + 1 < r.len() {
                    assert(out[i] == r[i] && out[i + 1] == r[i + 1]);
                } else {
                    assert(out[i] == r.last());
                    if t.len() > 0 {
                        assert(t.last() == s[s.len() - 2]);
                    }
                }
            }
            assert forall|i: int| 0 <= i < out.len() implies #[trigger] out[i] != '\t' by {
                if i < r.len() {
                    assert(out[i] == r[i]);
                }
            }
        }
    }
}

/// Collapsing blanks changes only spaces and tabs: the other characters are
/// kept, in order.
pub proof fn lemma_collapse_blanks_keeps_other_chars(s: Seq<char>)
    ensures
        without_blanks(collapse_blanks(s)) == without_blanks(s),
    decreases s.len(),
{
    if s.len() > 0 {
        let t = s.drop_last();
        let r = collapse_blanks(t);
        lemma_collapse_blanks_keeps_other_chars(t);
        let out = collapse_blanks(s);
        if out.len() != r.len() {
            assert(out.drop_last() =~= r);
        }
    }
}

/// The last character, and the one before it, survive collapsing line
/// breaks, and the text does not grow.
proof fn lemma_collapse_line_breaks_tail(s: Seq<char>)
    ensures
        collapse_line_breaks(s).len() <= s.len(),
        s.len() >= 1 ==> collapse_line_breaks(s).len() >= 1 && collapse_line_breaks(s).last()
            == s.last(),
        s.len() >= 2 ==> collapse_line_breaks(s).len() >= 2 && collapse_line_breaks(s)[collapse_line_breaks(s).len() - 2]
            == s[s.len() - 2],
    decreases s.len(),
{
    if s.len() > 0 {
        let t = s.drop_last();
        lemma_collapse_line_breaks_tail(t);
        if t.len() >= 1 {
            assert(t.last() == s[s.len() - 2]);
        }
        if t.len() >= 2 {
            assert(t[t.len() - 2] == s[s.len() - 3]);
        }
    }
}

/// After collapsing line breaks, no three line feeds stand in a row.
pub proof fn lemma_collapse_line_breaks_result(s: Seq<char>)
    ensures
        no_line_feed_triple(collapse_line_breaks(s)),
    decreases s.len(),
{
    if s.len() > 0 {
        let t = s.drop_last();
        let r = collapse_line_breaks(t);
        lemma_collapse_line_breaks_result(t);
        lemma_collapse_line_breaks_tail(t);
        let out = collapse_line_breaks(s);
        if out.len() == r.len() + 1 {
            let x = out.last();
            assert(out =~= r.push(x));
            assert forall|i: int|
                0 <= i && i + 2 < out.len() implies !(#[trigger] out[i] == '\n' && out[i + 1] == '\n'
                && out[i + 2] == '\n') by {
                if i + 2 < r.len() {
                    assert(out[i] == r[i] && out[i + 1] == r[i + 1] && out[i + 2] == r[i + 2]);
                } else {
                    assert(out[i] == r[r.len() - 2] && out[i + 1] == r.last());
                    assert(t.last() == s[s.len() - 2]);
                    assert(t[t.len() - 2] == s[s.len() - 3]);
                }
            }
        }
    }
}

/// Collapsing line breaks drops only line feeds, keeps every other
/// character in order, and so leaves a text without blank pairs or tabs
/// without them.
pub proof fn lemma_collapse_line_breaks_keeps_other_chars(s: Seq<char>)
    ensures
        without_line_feeds(collapse_line_breaks(s)) == without_line_feeds(s),
        no_blank_pair(s) ==> no_blank_pair(collapse_line_breaks(s)),
        has_no_tab(s) ==> has_no_tab(collapse_line_breaks(s)),
    decreases s.len(),
{
    if s.len() > 0 {
        let t = s.drop_last();
        let r = collapse_line_breaks(t);
        assert(no_blank_pair(s) ==> no_blank_pair(t)) by {
            if no_blank_pair(s) {
                assert forall|i: int| 0 <= i && i + 1 < t.len() implies !(is_blank(#[trigger] t[i])
                    && is_blank(t[i + 1])) by {
                    assert(t[i] == s[i] && t[i + 1] == s[i + 1]);
                }
            }
        }
        assert(has_no_tab(s) ==> has_no_tab(t)) by {
            if has_no_tab(s) {
                assert forall|i: int| 0 <= i < t.len() implies #[trigger] t[i] != '\t' by {
                    assert(t[i] == s[i]);
                }
            }
        }
        lemma_collapse_line_breaks_keeps_other_chars(t);
        lemma_collapse_line_breaks_tail(t);
        let out = collapse_line_breaks(s);
        if out.len() == r.len() + 1 {
            assert(out =~= r.push(s.last()));
            assert(out.drop_last() =~= r);
            if no_blank_pair(s) {
                assert forall|i: int| 0 <= i && i + 1 < out.len() implies !(is_blank(
                    #[trigger] out[i],
                ) && is_blank(out[i + 1])) by {
                    if i + 1 < r.len() {
                        assert(out[i] == r[i] && out[i + 1] == r[i + 1]);
                    } else {
                        assert(out[i] == r.last());
                        assert(t.last() == s[s.len() - 2]);
                    }
                }
            }
            if has_no_tab(s) {
                assert forall|i: int| 0 <= i < out.len() implies #[trigger] out[i] != '\t' by {
                    if i < r.len() {
                        assert(out[i] == r[i]);
                    }
                }
            }
        }
    }
}

/// Taking a part of a text keeps it free of blank pairs, line feed
/// triples and tabs.
pub proof fn lemma_subrange_keeps_clean(s: Seq<char>, a: int, b: int)
    requires
        0 <= a <= b <= s.len(),
    ensures
        no_blank_pair(s) ==> no_blank_pair(s.subrange(a, b)),
        no_line_feed_triple(s) ==> no_line_feed_triple(s.subrange(a, b)),
        has_no_tab(s) ==> has_no_tab(s.subrange(a, b)),
{
    let t = s.subrange(a, b);
    if no_blank_pair(s) {
        assert forall|i: int| 0 <= i && i + 1 < t.len() implies !(is_blank(#[trigger] t[i])
            && is_blank(t[i + 1])) by {
            assert(t[i] == s[a + i] && t[i + 1] == s[a + i + 1]);
        }
    }
    if no_line_feed_triple(s) {
        assert forall|i: int|
            0 <= i && i + 2 < t.len() implies !(#[trigger] t[i] == '\n' && t[i + 1] == '\n' && t[i
            + 2] == '\n') by {
            assert(t[i] == s[a + i] && t[i + 1] == s[a + i + 1] && t[i + 2] == s[a + i + 2]);
        }
    }
    if has_no_tab(s) {
        assert forall|i: int| 0 <= i < t.len() implies #[trigger] t[i] != '\t' by {
            assert(t[i] == s[a + i]);
        }
    }
}

/// Collapsing blanks works piece by piece: where the first piece is empty
/// or does not end with a space or tab, collapsing the joined text gives
/// the two collapsed pieces joined.
pub proof fn lemma_collapse_blanks_join(a: Seq<char>, b: Seq<char>)
    requires
        a.len() == 0 || !is_blank(a.last()),
    ensures
        collapse_blanks(a + b) == collapse_blanks(a) + collapse_blanks(b),
    decreases b.len(),
{
    if b.len() == 0 {
        assert(a + b =~= a);
        assert(collapse_blanks(a) + collapse_blanks(b) =~= collapse_blanks(a));
    } else {
        let s = a + b;
        let t = b.drop_last();
        lemma_collapse_blanks_join(a, t);
        assert(s.drop_last() =~= a + t);
        assert(s.last() == b.last());
        if b.len() >= 2 {
            assert(s[s.len() - 2] == b[b.len() - 2]);
        } else if a.len() > 0 {
            assert(s[s.len() - 2] == a.last());
        }
        let ca = collapse_blanks(a);
        let ct = collapse_blanks(t);
        assert(ca + ct.push(' ') =~= (ca + ct).push(' '));
        assert(ca + ct.push(b.last()) =~= (ca + ct).push(b.last()));
    }
}

/// A run of spaces and tabs collapses to a single space.
pub proof fn lemma_collapse_blanks_run(r: Seq<char>)
    requires
        r.len() > 0,
        forall|i: int| 0 <= i < r.len() ==> is_blank(#[trigger] r[i]),
    ensures
        collapse_blanks(r) == seq![' '],
    decreases r.len(),
{
    if r.len() == 1 {
        assert(r.drop_last() =~= Seq::<char>::empty());
        assert(collapse_blanks(r.drop_last()).len() == 0);
        assert(is_blank(r.last()));
        assert(collapse_blanks(r) == collapse_blanks(r.drop_last()).push(' '));
        assert(collapse_blanks(r) =~= seq![' ']);
    } else {
        let t = r.drop_last();
        assert forall|i: int| 0 <= i < t.len() implies is_blank(#[trigger] t[i]) by {
            assert(t[i] == r[i]);
        }
        lemma_collapse_blanks_run(t);
        assert(is_blank(r[r.len() - 2]));
    }
}

/// A text without spaces or tabs is left as it is by collapsing blanks.
pub proof fn lemma_collapse_blanks_no_blank(s: Seq<char>)
    requires
        forall|i: int| 0 <= i < s.len() ==> !is_blank(#[trigger] s[i]),
    ensures
        collapse_blanks(s) == s,
    decreases s.len(),
{
    if s.len() > 0 {
        let t = s.drop_last();
        assert forall|i: int| 0 <= i < t.len() implies !is_blank(#[trigger] t[i]) by {
            assert(t[i] == s[i]);
        }
        lemma_collapse_blanks_no_blank(t);
        assert(t.push(s.last()) =~= s);
    }
}

/// Collapsing line breaks works piece by piece: where the first piece is
/// empty or does not end with a line feed, collapsing the joined text gives
/// the two collapsed pieces joined.
pub proof fn lemma_collapse_line_breaks_join(a: Seq<char>, b: Seq<char>)
    requires
        a.len() == 0 || a.last() != '\n',
    ensures
        collapse_line_breaks(a + b) == collapse_line_breaks(a) + collapse_line_breaks(b),
    decreases b.len(),
{
    if b.len() == 0 {
        assert(a + b =~= a);
        assert(collapse_line_breaks(a) + collapse_line_breaks(b) =~= collapse_line_breaks(a));
    } else {
        let s = a + b;
        let t = b.drop_last();
        lemma_collapse_line_breaks_join(a, t);
        assert(s.drop_last() =~= a + t);
        assert(s.last() == b.last());
        if b.len() >= 3 {
            assert(s[s.len() - 2] == b[b.len() - 2]);
            assert(s[s.len() - 3] == b[b.len() - 3]);
        } else if b.len() == 2 {
            assert(s[s.len() - 2] == b[b.len() - 2]);
            if a.len() > 0 {
                assert(s[s.len() - 3] == a.last());
            }
        } else if a.len() > 0 {
            assert(s[s.len() - 2] == a.last());
        }
        let ca = collapse_line_breaks(a);
        let ct = collapse_line_breaks(t);
        assert(ca + ct.push(b.last()) =~= (ca + ct).push(b.last()));
    }
}

/// A run of `k` line feeds keeps `k` of them where `k` is at most two, and
/// two otherwise.
pub proof fn lemma_collapse_line_breaks_run(k: nat)
    ensures
        collapse_line_breaks(Seq::new(k, |i: int| '\n')) == Seq::new(
            if k <= 2 {
                k
            } else {
                2
            },
            |i: int| '\n',
        ),
    decreases k,
{
    let r = Seq::new(k, |i: int| '\n');
    if k > 0 {
        let t = Seq::new((k - 1) as nat, |i: int| '\n');
        assert(r.drop_last() =~= t);
        lemma_collapse_line_breaks_run((k - 1) as nat);
        if k <= 2 {
            assert(collapse_line_breaks(t).push('\n') =~= Seq::new(k, |i: int| '\n'));
        } else {
            assert(r[r.len() - 2] == '\n' && r[r.len() - 3] == '\n');
            if k == 3 {
                assert(collapse_line_breaks(t) =~= Seq::new(2, |i: int| '\n'));
            }
        }
    } else {
        assert(r =~= Seq::<char>::empty());
        assert(Seq::new(0, |i: int| '\n') =~= Seq::<char>::empty());
    }
}

/// A text without line feeds is left as it is by collapsing line breaks.
pub proof fn lemma_collapse_line_breaks_no_line_feed(s: Seq<char>)
    requires
        forall|i: int| 0 <= i < s.len() ==> #[trigger] s[i] != '\n',
    ensures
        collapse_line_breaks(s) == s,
    decreases s.len(),
{
    if s.len() > 0 {
        let t = s.drop_last();
        assert forall|i: int| 0 <= i < t.len() implies #[trigger] t[i] != '\n' by {
            assert(t[i] == s[i]);
        }
        lemma_collapse_line_breaks_no_line_feed(t);
        assert(t.push(s.last()) =~= s);
    }
}

/// `s` with each run of spaces and tabs replaced by one space.
pub fn collapse_blanks_text(s: &str) -> (res: String)
    ensures
        res@ == collapse_blanks(s@),
{
    let cs = chars_of(s);
    let n = cs.len();
    let mut out = String::new();
    let mut seg: usize = 0;
    let mut i: usize = 0;
    proof {
        reveal_strlit(" ");
    }
    assert(s@.take(0) =~= Seq::<char>::empty());
    assert(out@ + s@.subrange(0, 0) =~= Seq::<char>::empty());
    while i < n
        invariant
            seg <= i <= n,
            n == s@.len(),
            cs@ == s@,
            " "@ == seq![' '],
            out@ + s@.subrange(seg as int, i as int) == collapse_blanks(s@.take(i as int)),
        decreases n - i,
    {
        let ghost before = collapse_blanks(s@.take(i as int));
        let ghost next = s@.take(i + 1);
        assert(next.drop_last() =~= s@.take(i as int));
        assert(next.last() == s@[i as int]);
        if i > 0 {
            assert(next[next.len() - 2] == s@[i - 1]);
        }
        let c = cs[i];
        if c == ' ' || c == '\t' {
            if i > 0 && (cs[i - 1] == ' ' || cs[i - 1] == '\t') {
                if seg < i {
                    out.append(s.substring_char(seg, i));
                } else {
                    assert(s@.subrange(seg as int, i as int) =~= Seq::<char>::empty());
                    assert(out@ + s@.subrange(seg as int, i as int) =~= out@);
                }
                seg = i + 1;
                assert(s@.subrange(seg as int, seg as int) =~= Seq::<char>::empty());
                assert(out@ + s@.subrange(seg as int, i + 1) =~= before);
            } else if c == '\t' {
                out.append(s.substring_char(seg, i));
                out.append(" ");
                seg = i + 1;
                assert(out@ + s@.subrange(seg as int, i + 1) =~= before.push(' '));
            } else {
                assert(s@.subrange(seg as int, i + 1) =~= s@.subrange(seg as int, i as int).push(c));
                assert(out@ + s@.subrange(seg as int, i + 1) =~= before.push(' '));
            }
        } else {
            assert(s@.subrange(seg as int, i + 1) =~= s@.subrange(seg as int, i as int).push(c));
            assert(out@ + s@.subrange(seg as int, i + 1) =~= before.push(c));
        }
        i += 1;
    }
    out.append(s.substring_char(seg, n));
    assert(s@.take(n as int) =~= s@);
    out
}

/// `s` with each run of three or more line feeds replaced by two.
pub fn collapse_line_breaks_text(s: &str) -> (res: String)
    ensures
        res@ == collapse_line_breaks(s@),
{
    let cs = chars_of(s);
    let n = cs.len();
    let mut out = String::new();
    let mut seg: usize = 0;
    let mut i: usize = 0;
    assert(s@.take(0) =~= Seq::<char>::empty());
    assert(out@ + s@.subrange(0, 0) =~= Seq::<char>::empty());
    while i < n
        invariant
            seg <= i <= n,
            n == s@.len(),
            cs@ == s@,
            out@ + s@.subrange(seg as int, i as int) == collapse_line_breaks(s@.take(i as int)),
        decreases n - i,
    {
        let ghost before = collapse_line_breaks(s@.take(i as int));
        let ghost next = s@.take(i + 1);
        assert(next.drop_last() =~= s@.take(i as int));
        assert(next.last() == s@[i as int]);
        if i >= 2 {
            assert(next[next.len() - 2] == s@[i - 1]);
            assert(next[next.len() - 3] == s@[i - 2]);
        }
        let c = cs[i];
        if c == '\n' && i >= 2 && cs[i - 1] == '\n' && cs[i - 2] == '\n' {
            if seg < i {
                out.append(s.substring_char(seg, i));
            } else {
                assert(s@.subrange(seg as int, i as int) =~= Seq::<char>::empty());
                assert(out@ + s@.subrange(seg as int, i as int) =~= out@);
            }
            seg = i + 1;
            assert(s@.subrange(seg as int, seg as int) =~= Seq::<char>::empty());
            assert(out@ + s@.subrange(seg as int, i + 1) =~= before);
        } else {
            assert(s@.subrange(seg as int, i + 1) =~= s@.subrange(seg as int, i as int).push(c));
            assert(out@ + s@.subrange(seg as int, i + 1) =~= before.push(c));
        }
        i += 1;
    }
    out.append(s.substring_char(seg, n));
    assert(s@.take(n as int) =~= s@);
    out
}

} // verus!
