//! Verified helpers over `&str` and `String`: equality, searching,
//! splitting, trimming, and decimal parsing/formatting. All contracts are
//! stated over the character-sequence views (`Seq<char>`).
use vstd::prelude::*;
use vstd::string::StrSliceExecFns;
use vstd::string::StringExecFns;

verus! {

/// ASCII whitespace, the separator model used by the line and token
/// splitters below.
pub open spec fn is_space_char(c: char) -> bool {
    c == ' ' || c == '\t' || c == '\r' || c == '\n'
}

/// ASCII decimal digit.
pub open spec fn is_digit_char(c: char) -> bool {
    '0' <= c && c <= '9'
}

pub open spec fn digit_val(c: char) -> int
    recommends
        is_digit_char(c),
{
    (c as int) - ('0' as int)
}

/// Character-for-character string equality, decided without trusting any
/// std comparison.
pub fn str_eq(a: &str, b: &str) -> (r: bool)
    ensures
        r == (a@ == b@),
{
    let alen = a.unicode_len();
    let blen = b.unicode_len();
    if alen != blen {
        assert(a@ != b@) by {
            assert(a@.len() != b@.len());
        }
        return false;
    }
    let mut i: usize = 0;
    while i < alen
        invariant
            alen == a@.len(),
            blen == b@.len(),
            alen == blen,
            i <= alen,
            forall|k: int| 0 <= k < i ==> a@[k] == b@[k],
        decreases alen - i,
    {
        if a.get_char(i) != b.get_char(i) {
            return false;
        }
        i += 1;
    }
    assert(a@ =~= b@);
    true
}

pub fn contains_char(s: &str, c: char) -> (r: bool)
    ensures
        r == s@.contains(c),
{
    let n = s.unicode_len();
    let mut i: usize = 0;
    while i < n
        invariant
            n == s@.len(),
            i <= n,
            forall|k: int| 0 <= k < i ==> s@[k] != c,
        decreases n - i,
    {
        if s.get_char(i) == c {
            assert(s@.contains(c));
            return true;
        }
        i += 1;
    }
    assert(!s@.contains(c)) by {
        assert(forall|k: int| 0 <= k < s@.len() ==> s@[k] != c);
    }
    false
}

/// The suffix of `s` after the last occurrence of `c`; all of `s` when `c`
/// does not occur.
pub open spec fn after_last_char(s: Seq<char>, c: char) -> Seq<char>
    decreases s.len(),
{
    if s.len() == 0 {
        s
    } else if s.last() == c {
        Seq::empty()
    } else {
        after_last_char(s.drop_last(), c).push(s.last())
    }
}

pub fn after_last(s: &str, c: char) -> (r: &str)
    ensures
        r@ == after_last_char(s@, c),
{
    let n = s.unicode_len();
    let mut i: usize = n;
    while i > 0
        invariant
            n == s@.len(),
            i <= n,
            forall|k: int| i <= k < n ==> s@[k] != c,
        decreases i,
    {
        if s.get_char(i - 1) == c {
            let r = s.substring_char(i, n);
            assert(r@ =~= after_last_char(s@, c)) by {
                lemma_after_last_no_c(s@, c, i as int);
            }
            return r;
        }
        i -= 1;
    }
    let r = s.substring_char(0, n);
    assert(r@ =~= after_last_char(s@, c)) by {
        lemma_after_last_absent(s@, c);
    }
    r
}

/// When no character of `s[from..]` equals `c` and `s[from-1] == c`,
/// the suffix after the last `c` is exactly `s[from..]`.
pub proof fn lemma_after_last_no_c(s: Seq<char>, c: char, from: int)
    requires
        0 < from <= s.len(),
        s[from - 1] == c,
        forall|k: int| from <= k < s.len() ==> s[k] != c,
    ensures
        after_last_char(s, c) =~= s.subrange(from, s.len() as int),
    decreases s.len() - from,
{
    if from == s.len() {
        assert(s.last() == c);
    } else {
        assert(s.last() != c);
        lemma_after_last_no_c(s.drop_last(), c, from);
        assert(s.drop_last().subrange(from, s.len() - 1) =~= s.subrange(from, s.len() - 1));
        assert(after_last_char(s, c) =~= after_last_char(s.drop_last(), c).push(s.last()));
        assert(s.subrange(from, s.len() - 1).push(s.last()) =~= s.subrange(from, s.len() as int));
    }
}

pub proof fn lemma_after_last_absent(s: Seq<char>, c: char)
    requires
        forall|k: int| 0 <= k < s.len() ==> s[k] != c,
    ensures
        after_last_char(s, c) =~= s,
    decreases s.len(),
{
    if s.len() > 0 {
        lemma_after_last_absent(s.drop_last(), c);
    }
}

/// The prefix of `s` before the first occurrence of `c`; all of `s` when
/// `c` does not occur.
pub open spec fn before_first_char(s: Seq<char>, c: char) -> Seq<char>
    decreases s.len(),
{
    if s.len() == 0 {
        s
    } else if s[0] == c {
        Seq::empty()
    } else {
        seq![s[0]] + before_first_char(s.drop_first(), c)
    }
}

pub fn before_first(s: &str, c: char) -> (r: &str)
    ensures
        r@ == before_first_char(s@, c),
{
    let n = s.unicode_len();
    let mut i: usize = 0;
    while i < n
        invariant
            n == s@.len(),
            i <= n,
            forall|k: int| 0 <= k < i ==> s@[k] != c,
        decreases n - i,
    {
        if s.get_char(i) == c {
            let r = s.substring_char(0, i);
            assert(r@ =~= before_first_char(s@, c)) by {
                lemma_before_first_at(s@, c, i as int);
            }
            return r;
        }
        i += 1;
    }
    let r = s.substring_char(0, n);
    assert(r@ =~= before_first_char(s@, c)) by {
        lemma_before_first_absent(s@, c);
    }
    r
}

proof fn lemma_before_first_at(s: Seq<char>, c: char, at: int)
    requires
        0 <= at < s.len(),
        s[at] == c,
        forall|k: int| 0 <= k < at ==> s[k] != c,
    ensures
        before_first_char(s, c) =~= s.subrange(0, at),
    decreases at,
{
    if at == 0 {
    } else {
        assert(s[0] != c);
        assert(s.drop_first()[at - 1] == c);
        lemma_before_first_at(s.drop_first(), c, at - 1);
        assert(seq![s[0]] + s.drop_first().subrange(0, at - 1) =~= s.subrange(0, at));
    }
}

proof fn lemma_before_first_absent(s: Seq<char>, c: char)
    requires
        forall|k: int| 0 <= k < s.len() ==> s[k] != c,
    ensures
        before_first_char(s, c) =~= s,
    decreases s.len(),
{
    if s.len() > 0 {
        lemma_before_first_absent(s.drop_first(), c);
    }
}

pub fn starts_with(s: &str, prefix: &str) -> (r: bool)
    ensures
        r == (s@.len() >= prefix@.len() && s@.subrange(0, prefix@.len() as int) == prefix@),
{
    let n = s.unicode_len();
    let p = prefix.unicode_len();
    if n < p {
        return false;
    }
    let head = s.substring_char(0, p);
    str_eq(head, prefix)
}

/// The rest of `s` once a prefix of `n` characters is removed.
pub fn drop_prefix(s: &str, n: usize) -> (r: &str)
    requires
        n <= s@.len(),
    ensures
        r@ == s@.subrange(n as int, s@.len() as int),
{
    let len = s.unicode_len();
    s.substring_char(n, len)
}

/// `s` without leading characters satisfying the class `c` (a single
/// character here, as in `str::trim_matches`), defined from the front.
pub open spec fn trim_front_char(s: Seq<char>, c: char) -> Seq<char>
    decreases s.len(),
{
    if s.len() > 0 && s[0] == c {
        trim_front_char(s.drop_first(), c)
    } else {
        s
    }
}

pub open spec fn trim_back_char(s: Seq<char>, c: char) -> Seq<char>
    decreases s.len(),
{
    if s.len() > 0 && s.last() == c {
        trim_back_char(s.drop_last(), c)
    } else {
        s
    }
}

pub open spec fn trim_char_spec(s: Seq<char>, c: char) -> Seq<char> {
    trim_back_char(trim_front_char(s, c), c)
}

/// `s` without leading ASCII whitespace, defined from the front.
pub open spec fn trim_front_spaces(s: Seq<char>) -> Seq<char>
    decreases s.len(),
{
    if s.len() > 0 && is_space_char(s[0]) {
        trim_front_spaces(s.drop_first())
    } else {
        s
    }
}

pub open spec fn trim_back_spaces(s: Seq<char>) -> Seq<char>
    decreases s.len(),
{
    if s.len() > 0 && is_space_char(s.last()) {
        trim_back_spaces(s.drop_last())
    } else {
        s
    }
}

pub open spec fn trim_spaces_spec(s: Seq<char>) -> Seq<char> {
    trim_back_spaces(trim_front_spaces(s))
}

proof fn lemma_trim_front_spaces_range(s: Seq<char>, i: int)
    requires
        0 <= i <= s.len(),
        forall|k: int| 0 <= k < i ==> is_space_char(s[k]),
        i < s.len() ==> !is_space_char(s[i]),
    ensures
        trim_front_spaces(s) =~= s.subrange(i, s.len() as int),
    decreases i,
{
    if i == 0 {
        if s.len() > 0 {
            assert(!is_space_char(s[0]));
        }
        assert(s.subrange(0, s.len() as int) =~= s);
    } else {
        assert(is_space_char(s[0]));
        assert(forall|k: int| 0 <= k < i - 1 ==> is_space_char(#[trigger] s.drop_first()[k]));
        lemma_trim_front_spaces_range(s.drop_first(), i - 1);
        assert(s.drop_first().subrange(i - 1, s.len() - 1) =~= s.subrange(i, s.len() as int));
    }
}

proof fn lemma_trim_back_spaces_range(s: Seq<char>, j: int)
    requires
        0 <= j <= s.len(),
        forall|k: int| j <= k < s.len() ==> is_space_char(s[k]),
        j > 0 ==> !is_space_char(s[j - 1]),
    ensures
        trim_back_spaces(s) =~= s.subrange(0, j),
    decreases s.len() - j,
{
    if j == s.len() {
        if s.len() > 0 {
            assert(!is_space_char(s.last()));
        }
        assert(s.subrange(0, s.len() as int) =~= s);
    } else {
        assert(is_space_char(s.last()));
        lemma_trim_back_spaces_range(s.drop_last(), j);
    }
}

/// `str::trim` restricted to ASCII whitespace.
pub fn trim_spaces(s: &str) -> (r: &str)
    ensures
        r@ == trim_spaces_spec(s@),
{
    let n = s.unicode_len();
    let mut i: usize = 0;
    while i < n && is_space(s.get_char(i))
        invariant
            n == s@.len(),
            i <= n,
            forall|k: int| 0 <= k < i ==> is_space_char(s@[k]),
        decreases n - i,
    {
        i += 1;
    }
    proof {
        lemma_trim_front_spaces_range(s@, i as int);
    }
    let mut j: usize = n;
    while j > i && is_space(s.get_char(j - 1))
        invariant
            n == s@.len(),
            i <= j <= n,
            forall|k: int| 0 <= k < i ==> is_space_char(s@[k]),
            forall|k: int| j <= k < n ==> is_space_char(s@[k]),
            trim_front_spaces(s@) =~= s@.subrange(i as int, n as int),
        decreases j,
    {
        j -= 1;
    }
    let r = s.substring_char(i, j);
    proof {
        let t = s@.subrange(i as int, n as int);
        assert(forall|k: int| (j - i) <= k < t.len() ==> is_space_char(#[trigger] t[k]));
        if j > i {
            assert(!is_space_char(t[j - i - 1]));
        }
        lemma_trim_back_spaces_range(t, j - i);
        assert(t.subrange(0, j - i) =~= s@.subrange(i as int, j as int));
    }
    r
}

/// Executable form of `is_space_char`.
pub fn is_space(c: char) -> (r: bool)
    ensures
        r == is_space_char(c),
{
    c == ' ' || c == '\t' || c == '\r' || c == '\n'
}

/// `str::trim_matches` for a single pattern character.
pub fn trim_char(s: &str, c: char) -> (r: &str)
    ensures
        r@ == trim_char_spec(s@, c),
{
    let n = s.unicode_len();
    let mut i: usize = 0;
    while i < n && s.get_char(i) == c
        invariant
            n == s@.len(),
            i <= n,
            forall|k: int| 0 <= k < i ==> s@[k] == c,
        decreases n - i,
    {
        i += 1;
    }
    proof {
        lemma_trim_front_char_range(s@, c, i as int);
    }
    let mut j: usize = n;
    while j > i && s.get_char(j - 1) == c
        invariant
            n == s@.len(),
            i <= j <= n,
            forall|k: int| j <= k < n ==> s@[k] == c,
            trim_front_char(s@, c) =~= s@.subrange(i as int, n as int),
        decreases j,
    {
        j -= 1;
    }
    let r = s.substring_char(i, j);
    proof {
        let t = s@.subrange(i as int, n as int);
        assert(forall|k: int| (j - i) <= k < t.len() ==> #[trigger] t[k] == c);
        if j > i {
            assert(t[j - i - 1] != c);
        }
        lemma_trim_back_char_range(t, c, j - i);
        assert(t.subrange(0, j - i) =~= s@.subrange(i as int, j as int));
    }
    r
}

proof fn lemma_trim_front_char_range(s: Seq<char>, c: char, i: int)
    requires
        0 <= i <= s.len(),
        forall|k: int| 0 <= k < i ==> s[k] == c,
        i < s.len() ==> s[i] != c,
    ensures
        trim_front_char(s, c) =~= s.subrange(i, s.len() as int),
    decreases i,
{
    if i == 0 {
        assert(s.subrange(0, s.len() as int) =~= s);
    } else {
        assert(forall|k: int| 0 <= k < i - 1 ==> #[trigger] s.drop_first()[k] == c);
        lemma_trim_front_char_range(s.drop_first(), c, i - 1);
        assert(s.drop_first().subrange(i - 1, s.len() - 1) =~= s.subrange(i, s.len() as int));
    }
}

proof fn lemma_trim_back_char_range(s: Seq<char>, c: char, j: int)
    requires
        0 <= j <= s.len(),
        forall|k: int| j <= k < s.len() ==> s[k] == c,
        j > 0 ==> s[j - 1] != c,
    ensures
        trim_back_char(s, c) =~= s.subrange(0, j),
    decreases s.len() - j,
{
    if j == s.len() {
        assert(s.subrange(0, s.len() as int) =~= s);
    } else {
        lemma_trim_back_char_range(s.drop_last(), c, j);
    }
}

/// `needle` occurs contiguously somewhere in `haystack`.
pub open spec fn contains_seq(h: Seq<char>, n: Seq<char>) -> bool {
    exists|i: int| 0 <= i <= h.len() - n.len() && #[trigger] h.subrange(i, i + n.len()) == n
}

pub fn contains_substr(h: &str, n: &str) -> (r: bool)
    ensures
        r == contains_seq(h@, n@),
{
    let hlen = h.unicode_len();
    let nlen = n.unicode_len();
    if nlen > hlen {
        return false;
    }
    if nlen == 0 {
        proof {
            assert(h@.subrange(0, 0 + n@.len() as int) =~= n@);
            assert(contains_seq(h@, n@));
        }
        return true;
    }
    let limit = hlen - nlen;
    let mut i: usize = 0;
    while i <= limit
        invariant
            hlen == h@.len(),
            nlen == n@.len(),
            0 < nlen <= hlen,
            limit == hlen - nlen,
            i <= limit + 1,
            forall|k: int| 0 <= k < i ==> #[trigger] h@.subrange(k, k + n@.len()) != n@,
        decreases limit + 1 - i,
    {
        let piece = h.substring_char(i, i + nlen);
        if str_eq(piece, n) {
            assert(contains_seq(h@, n@));
            return true;
        }
        i += 1;
    }
    false
}

/// `s` split on the character `c`, keeping empty pieces, as `str::split`
/// does; stated as an accumulating recursion over the characters.
pub open spec fn split_char_acc(s: Seq<char>, cur: Seq<char>, acc: Seq<Seq<char>>, c: char) -> Seq<
    Seq<char>,
>
    decreases s.len(),
{
    if s.len() == 0 {
        acc.push(cur)
    } else if s[0] == c {
        split_char_acc(s.drop_first(), Seq::empty(), acc.push(cur), c)
    } else {
        split_char_acc(s.drop_first(), cur.push(s[0]), acc, c)
    }
}

pub open spec fn split_char_spec(s: Seq<char>, c: char) -> Seq<Seq<char>> {
    split_char_acc(s, Seq::empty(), Seq::empty(), c)
}

pub fn split_char(s: &str, c: char) -> (r: Vec<String>)
    ensures
        r.deep_view() == split_char_spec(s@, c),
{
    let n = s.unicode_len();
    let mut r: Vec<String> = Vec::new();
    let mut start: usize = 0;
    let mut i: usize = 0;
    assert(s@.subrange(0, n as int) =~= s@);
    assert(s@.subrange(0, 0) =~= Seq::<char>::empty());
    assert(r.deep_view() =~= Seq::<Seq<char>>::empty());
    while i < n
        invariant
            n == s@.len(),
            start <= i <= n,
            split_char_acc(
                s@.subrange(i as int, n as int),
                s@.subrange(start as int, i as int),
                r.deep_view(),
                c,
            ) == split_char_spec(s@, c),
        decreases n - i,
    {
        let ghost old_dv = r.deep_view();
        let ghost rest = s@.subrange(i as int, n as int);
        assert(rest[0] == s@[i as int]);
        assert(rest.drop_first() =~= s@.subrange(i + 1, n as int));
        if s.get_char(i) == c {
            let piece = s.substring_char(start, i).to_owned();
            r.push(piece);
            assert(r.deep_view() =~= old_dv.push(s@.subrange(start as int, i as int)));
            start = i + 1;
            assert(s@.subrange(start as int, (i + 1) as int) =~= Seq::<char>::empty());
        } else {
            assert(s@.subrange(start as int, i as int).push(s@[i as int]) =~= s@.subrange(
                start as int,
                (i + 1) as int,
            ));
        }
        i += 1;
    }
    let piece = s.substring_char(start, n).to_owned();
    r.push(piece);
    assert(s@.subrange(n as int, n as int) =~= Seq::<char>::empty());
    assert(r.deep_view() =~= split_char_spec(s@, c));
    r
}

/// A trailing carriage return removed, as `str::lines` does at a line
/// ending.
pub open spec fn strip_cr(s: Seq<char>) -> Seq<char> {
    if s.len() > 0 && s.last() == '\r' {
        s.drop_last()
    } else {
        s
    }
}

/// The lines of `s`, with `str::lines` semantics: split at `\n`, a `\r`
/// before the `\n` removed, no final empty line for a trailing newline.
pub open spec fn lines_acc(s: Seq<char>, cur: Seq<char>, acc: Seq<Seq<char>>) -> Seq<Seq<char>>
    decreases s.len(),
{
    if s.len() == 0 {
        if cur.len() == 0 {
            acc
        } else {
            acc.push(cur)
        }
    } else if s[0] == '\n' {
        lines_acc(s.drop_first(), Seq::empty(), acc.push(strip_cr(cur)))
    } else {
        lines_acc(s.drop_first(), cur.push(s[0]), acc)
    }
}

pub open spec fn lines_spec(s: Seq<char>) -> Seq<Seq<char>> {
    lines_acc(s, Seq::empty(), Seq::empty())
}

pub fn split_lines(s: &str) -> (r: Vec<String>)
    ensures
        r.deep_view() == lines_spec(s@),
{
    let n = s.unicode_len();
    let mut r: Vec<String> = Vec::new();
    let mut start: usize = 0;
    let mut i: usize = 0;
    assert(s@.subrange(0, n as int) =~= s@);
    assert(s@.subrange(0, 0) =~= Seq::<char>::empty());
    assert(r.deep_view() =~= Seq::<Seq<char>>::empty());
    while i < n
        invariant
            n == s@.len(),
            start <= i <= n,
            lines_acc(
                s@.subrange(i as int, n as int),
                s@.subrange(start as int, i as int),
                r.deep_view(),
            ) == lines_spec(s@),
        decreases n - i,
    {
        let ghost old_dv = r.deep_view();
        let ghost rest = s@.subrange(i as int, n as int);
        assert(rest[0] == s@[i as int]);
        assert(rest.drop_first() =~= s@.subrange(i + 1, n as int));
        if s.get_char(i) == '\n' {
            let piece = if i > start && s.get_char(i - 1) == '\r' {
                s.substring_char(start, i - 1)
            } else {
                s.substring_char(start, i)
            };
            proof {
                let cur = s@.subrange(start as int, i as int);
                if i > start && s@[i - 1] == '\r' {
                    assert(cur.last() == '\r');
                    assert(cur.drop_last() =~= s@.subrange(start as int, i - 1));
                } else {
                    if cur.len() > 0 {
                        assert(cur.last() == s@[i - 1]);
                    }
                }
            }
            r.push(piece.to_owned());
            assert(r.deep_view() =~= old_dv.push(strip_cr(s@.subrange(start as int, i as int))));
            start = i + 1;
            assert(s@.subrange(start as int, (i + 1) as int) =~= Seq::<char>::empty());
        } else {
            assert(s@.subrange(start as int, i as int).push(s@[i as int]) =~= s@.subrange(
                start as int,
                (i + 1) as int,
            ));
        }
        i += 1;
    }
    if start < n {
        let ghost old_dv = r.deep_view();
        let piece = s.substring_char(start, n).to_owned();
        r.push(piece);
        assert(r.deep_view() =~= old_dv.push(s@.subrange(start as int, n as int)));
    } else {
        assert(s@.subrange(start as int, n as int).len() == 0);
    }
    assert(s@.subrange(n as int, n as int) =~= Seq::<char>::empty());
    assert(r.deep_view() =~= lines_spec(s@));
    r
}

/// The whitespace-separated tokens of `s`, with `str::split_whitespace`
/// semantics restricted to ASCII whitespace.
pub open spec fn tokens_acc(s: Seq<char>, cur: Seq<char>, acc: Seq<Seq<char>>) -> Seq<Seq<char>>
    decreases s.len(),
{
    if s.len() == 0 {
        if cur.len() == 0 {
            acc
        } else {
            acc.push(cur)
        }
    } else if is_space_char(s[0]) {
        if cur.len() == 0 {
            tokens_acc(s.drop_first(), Seq::empty(), acc)
        } else {
            tokens_acc(s.drop_first(), Seq::empty(), acc.push(cur))
        }
    } else {
        tokens_acc(s.drop_first(), cur.push(s[0]), acc)
    }
}

pub open spec fn tokens_of(s: Seq<char>) -> Seq<Seq<char>> {
    tokens_acc(s, Seq::empty(), Seq::empty())
}

pub fn split_ws(s: &str) -> (r: Vec<String>)
    ensures
        r.deep_view() == tokens_of(s@),
{
    let n = s.unicode_len();
    let mut r: Vec<String> = Vec::new();
    let mut start: usize = 0;
    let mut i: usize = 0;
    assert(s@.subrange(0, n as int) =~= s@);
    assert(s@.subrange(0, 0) =~= Seq::<char>::empty());
    assert(r.deep_view() =~= Seq::<Seq<char>>::empty());
    while i < n
        invariant
            n == s@.len(),
            start <= i <= n,
            tokens_acc(
                s@.subrange(i as int, n as int),
                s@.subrange(start as int, i as int),
                r.deep_view(),
            ) == tokens_of(s@),
        decreases n - i,
    {
        let ghost old_dv = r.deep_view();
        let ghost rest = s@.subrange(i as int, n as int);
        assert(rest[0] == s@[i as int]);
        assert(rest.drop_first() =~= s@.subrange(i + 1, n as int));
        if is_space(s.get_char(i)) {
            if i > start {
                let piece = s.substring_char(start, i).to_owned();
                r.push(piece);
                assert(r.deep_view() =~= old_dv.push(s@.subrange(start as int, i as int)));
            }
            start = i + 1;
            assert(s@.subrange(start as int, (i + 1) as int) =~= Seq::<char>::empty());
        } else {
            assert(s@.subrange(start as int, i as int).push(s@[i as int]) =~= s@.subrange(
                start as int,
                (i + 1) as int,
            ));
        }
        i += 1;
    }
    if start < n {
        let ghost old_dv = r.deep_view();
        let piece = s.substring_char(start, n).to_owned();
        r.push(piece);
        assert(r.deep_view() =~= old_dv.push(s@.subrange(start as int, n as int)));
    } else {
        assert(s@.subrange(start as int, n as int).len() == 0);
    }
    assert(s@.subrange(n as int, n as int) =~= Seq::<char>::empty());
    assert(r.deep_view() =~= tokens_of(s@));
    r
}

pub open spec fn all_digits(s: Seq<char>) -> bool {
    forall|k: int| 0 <= k < s.len() ==> is_digit_char(#[trigger] s[k])
}

/// The numeric value of a digit string, most significant digit first.
pub open spec fn dec_value(s: Seq<char>) -> int
    decreases s.len(),
{
    if s.len() == 0 {
        0
    } else {
        dec_value(s.drop_last()) * 10 + digit_val(s.last())
    }
}

/// The digits of `s` once an optional leading `+` sign is removed, as
/// `str::parse` for unsigned integers allows.
pub open spec fn digits_part(s: Seq<char>) -> Seq<char> {
    if s.len() > 0 && s[0] == '+' {
        s.drop_first()
    } else {
        s
    }
}

pub open spec fn parse_u16_spec(s: Seq<char>) -> Option<u16> {
    let d = digits_part(s);
    if d.len() > 0 && all_digits(d) && dec_value(d) <= u16::MAX {
        Some(dec_value(d) as u16)
    } else {
        None
    }
}

pub open spec fn parse_u32_spec(s: Seq<char>) -> Option<u32> {
    let d = digits_part(s);
    if d.len() > 0 && all_digits(d) && dec_value(d) <= u32::MAX {
        Some(dec_value(d) as u32)
    } else {
        None
    }
}

/// The value of the digit string `s`, saturated at `0x1_0000_0000` so that
/// an accumulator can decide "fits in 32 bits" without overflowing.
pub open spec fn dec_clamped(s: Seq<char>) -> int {
    if dec_value(s) >= 0x1_0000_0000 {
        0x1_0000_0000
    } else {
        dec_value(s)
    }
}

proof fn lemma_dec_value_nonneg(s: Seq<char>)
    requires
        all_digits(s),
    ensures
        dec_value(s) >= 0,
    decreases s.len(),
{
    if s.len() > 0 {
        assert(all_digits(s.drop_last())) by {
            assert(forall|k: int| 0 <= k < s.len() - 1 ==> s.drop_last()[k] == #[trigger] s[k]);
        }
        lemma_dec_value_nonneg(s.drop_last());
    }
}

fn parse_digits_clamped(s: &str) -> (r: Option<u64>)
    ensures
        match r {
            Some(v) => s@.len() > 0 && all_digits(s@) && v == dec_clamped(s@),
            None => s@.len() == 0 || !all_digits(s@),
        },
{
    let n = s.unicode_len();
    if n == 0 {
        return None;
    }
    let mut acc: u64 = 0;
    let mut i: usize = 0;
    assert(s@.subrange(0, 0) =~= Seq::<char>::empty());
    while i < n
        invariant
            n == s@.len(),
            i <= n,
            all_digits(s@.subrange(0, i as int)),
            acc == dec_clamped(s@.subrange(0, i as int)),
            acc <= 0x1_0000_0000,
        decreases n - i,
    {
        let c = s.get_char(i);
        if !('0' <= c && c <= '9') {
            assert(!all_digits(s@)) by {
                assert(s@[i as int] == c);
            }
            return None;
        }
        let d: u64 = (c as u32 as u64) - ('0' as u32 as u64);
        let ghost pre = s@.subrange(0, i as int);
        let ghost pre2 = s@.subrange(0, i + 1);
        proof {
            assert(pre2.drop_last() =~= pre);
            assert(pre2.last() == c);
            lemma_dec_value_nonneg(pre);
        }
        let t: u64 = acc * 10 + d;
        if t >= 0x1_0000_0000 {
            acc = 0x1_0000_0000;
        } else {
            acc = t;
        }
        proof {
            assert(all_digits(pre2)) by {
                assert(forall|k: int| 0 <= k < pre2.len() - 1 ==> pre2[k] == #[trigger] pre[k]);
            }
            assert(dec_value(pre2) == dec_value(pre) * 10 + digit_val(c));
            if dec_value(pre) >= 0x1_0000_0000 {
                assert(dec_value(pre) * 10 + digit_val(c) >= 0x1_0000_0000);
            }
        }
        i += 1;
    }
    assert(s@.subrange(0, n as int) =~= s@);
    Some(acc)
}

/// `str::parse::<u16>`: an optional `+` sign, then decimal digits.
pub fn parse_u16(s: &str) -> (r: Option<u16>)
    ensures
        r == parse_u16_spec(s@),
{
    let d: &str = if s.unicode_len() > 0 && s.get_char(0) == '+' {
        let t = drop_prefix(s, 1);
        proof {
            assert(t@ =~= s@.drop_first());
        }
        t
    } else {
        s
    };
    assert(d@ == digits_part(s@));
    match parse_digits_clamped(d) {
        None => None,
        Some(v) => {
            if v <= 0xFFFF {
                proof {
                    lemma_dec_value_nonneg(d@);
                }
                Some(v as u16)
            } else {
                None
            }
        },
    }
}

/// `str::parse::<u32>`: an optional `+` sign, then decimal digits.
pub fn parse_u32(s: &str) -> (r: Option<u32>)
    ensures
        r == parse_u32_spec(s@),
{
    let d: &str = if s.unicode_len() > 0 && s.get_char(0) == '+' {
        let t = drop_prefix(s, 1);
        proof {
            assert(t@ =~= s@.drop_first());
        }
        t
    } else {
        s
    };
    assert(d@ == digits_part(s@));
    match parse_digits_clamped(d) {
        None => None,
        Some(v) => {
            if v <= 0xFFFF_FFFF {
                proof {
                    lemma_dec_value_nonneg(d@);
                }
                Some(v as u32)
            } else {
                None
            }
        },
    }
}

pub open spec fn digit_char(d: int) -> char
    recommends
        0 <= d < 10,
{
    if d == 0 {
        '0'
    } else if d == 1 {
        '1'
    } else if d == 2 {
        '2'
    } else if d == 3 {
        '3'
    } else if d == 4 {
        '4'
    } else if d == 5 {
        '5'
    } else if d == 6 {
        '6'
    } else if d == 7 {
        '7'
    } else if d == 8 {
        '8'
    } else {
        '9'
    }
}

/// The decimal digits of `n`, most significant first, with no sign and no
/// leading zeros (a single `0` for zero).
pub open spec fn dec_digits_of(n: int) -> Seq<char>
    recommends
        n >= 0,
    decreases n,
{
    if n < 10 {
        seq![digit_char(n)]
    } else {
        dec_digits_of(n / 10).push(digit_char(n % 10))
    }
}

fn digit_str(d: u32) -> (r: &'static str)
    requires
        d < 10,
    ensures
        r@ =~= seq![digit_char(d as int)],
{
    if d == 0 {
        proof {
            reveal_strlit("0");
        }
        "0"
    } else if d == 1 {
        proof {
            reveal_strlit("1");
        }
        "1"
    } else if d == 2 {
        proof {
            reveal_strlit("2");
        }
        "2"
    } else if d == 3 {
        proof {
            reveal_strlit("3");
        }
        "3"
    } else if d == 4 {
        proof {
            reveal_strlit("4");
        }
        "4"
    } else if d == 5 {
        proof {
            reveal_strlit("5");
        }
        "5"
    } else if d == 6 {
        proof {
            reveal_strlit("6");
        }
        "6"
    } else if d == 7 {
        proof {
            reveal_strlit("7");
        }
        "7"
    } else if d == 8 {
        proof {
            reveal_strlit("8");
        }
        "8"
    } else {
        proof {
            reveal_strlit("9");
        }
        "9"
    }
}

/// Decimal rendering of a `u32`, as `u32::to_string` produces.
pub fn u32_to_string(n: u32) -> (r: String)
    ensures
        r@ == dec_digits_of(n as int),
    decreases n,
{
    if n < 10 {
        String::from_str(digit_str(n))
    } else {
        let mut s = u32_to_string(n / 10);
        s.append(digit_str(n % 10));
        proof {
            assert(dec_digits_of(n as int) =~= dec_digits_of(n as int / 10).push(
                digit_char(n as int % 10),
            ));
            assert(dec_digits_of(n as int / 10).push(digit_char(n as int % 10)) =~= dec_digits_of(
                n as int / 10,
            ) + seq![digit_char(n as int % 10)]);
        }
        s
    }
}

pub fn vec_contains_u32(v: &Vec<u32>, x: u32) -> (r: bool)
    ensures
        r == v@.contains(x),
{
    let mut i: usize = 0;
    while i < v.len()
        invariant
            i <= v@.len(),
            forall|k: int| 0 <= k < i ==> v@[k] != x,
        decreases v@.len() - i,
    {
        if v[i] == x {
            assert(v@.contains(x));
            return true;
        }
        i += 1;
    }
    false
}

} // verus!
