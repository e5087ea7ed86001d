//! Shell quoting: wrapping arbitrary strings in single quotes so that a
//! POSIX shell reads them back verbatim, together with a small model of
//! POSIX word unquoting and a proof that quoting round-trips through it.
use vstd::prelude::*;
use vstd::string::StrSliceExecFns;
use vstd::string::StringExecFns;

verus! {

/// The replacement for one character under single-quote escaping: a
/// literal single quote becomes close-quote, double-quoted quote, reopen
/// (`'"'"'`); every other character stays itself.
pub open spec fn quote_rep(c: char) -> Seq<char> {
    if c == '\'' {
        seq!['\'', '"', '\'', '"', '\'']
    } else {
        seq![c]
    }
}

/// `s` with every single quote replaced by `'"'"'`.
pub open spec fn escaped_quotes(s: Seq<char>) -> Seq<char>
    decreases s.len(),
{
    if s.len() == 0 {
        Seq::empty()
    } else {
        quote_rep(s[0]) + escaped_quotes(s.drop_first())
    }
}

/// The full quoted form: a single quote, the escaped body, a single quote.
pub open spec fn quoted(s: Seq<char>) -> Seq<char> {
    seq!['\''] + escaped_quotes(s) + seq!['\'']
}

proof fn lemma_escaped_snoc(s: Seq<char>, c: char)
    ensures
        escaped_quotes(s.push(c)) =~= escaped_quotes(s) + quote_rep(c),
    decreases s.len(),
{
    if s.len() == 0 {
        assert(s.push(c)[0] == c);
        assert(s.push(c).drop_first() =~= Seq::<char>::empty());
        assert(escaped_quotes(Seq::<char>::empty()) =~= Seq::<char>::empty());
        assert(escaped_quotes(s.push(c)) =~= quote_rep(c));
    } else {
        assert(s.push(c)[0] == s[0]);
        assert(s.push(c).drop_first() =~= s.drop_first().push(c));
        lemma_escaped_snoc(s.drop_first(), c);
        assert(escaped_quotes(s.push(c)) =~= quote_rep(s[0]) + escaped_quotes(
            s.drop_first().push(c),
        ));
        assert(quote_rep(s[0]) + (escaped_quotes(s.drop_first()) + quote_rep(c)) =~= (quote_rep(
            s[0],
        ) + escaped_quotes(s.drop_first())) + quote_rep(c));
    }
}

/// Replaces every single quote in `s` with the sequence `'"'"'`, the body
/// of the POSIX single-quote escaping idiom.
pub fn escape_shell_single_quote(s: &str) -> (r: String)
    ensures
        r@ == escaped_quotes(s@),
{
    let n = s.unicode_len();
    let mut r = String::new();
    let mut i: usize = 0;
    assert(s@.subrange(0, 0) =~= Seq::<char>::empty());
    while i < n
        invariant
            n == s@.len(),
            i <= n,
            r@ == escaped_quotes(s@.subrange(0, i as int)),
        decreases n - i,
    {
        let ghost pre = s@.subrange(0, i as int);
        let c = s.get_char(i);
        if c == '\'' {
            r.append("'\"'\"'");
            proof {
                reveal_strlit("'\"'\"'");
                assert(("'\"'\"'")@ =~= seq!['\'', '"', '\'', '"', '\'']);
            }
        } else {
            let piece = s.substring_char(i, i + 1);
            r.append(piece);
            proof {
                assert(piece@ =~= seq![c]);
            }
        }
        proof {
            assert(s@.subrange(0, i + 1) =~= pre.push(c));
            lemma_escaped_snoc(pre, c);
        }
        i += 1;
    }
    assert(s@.subrange(0, n as int) =~= s@);
    r
}

/// Wraps `s` in single quotes, escaping any single quotes inside it, so
/// that a POSIX shell evaluates the result to exactly `s`.
pub fn shell_quote(s: &str) -> (r: String)
    ensures
        r@ == quoted(s@),
{
    let mut r = String::from_str("'");
    let body = escape_shell_single_quote(s);
    r.append(body.as_str());
    r.append("'");
    proof {
        reveal_strlit("'");
        assert(("'")@ =~= seq!['\'']);
        assert(r@ =~= quoted(s@));
    }
    r
}

/// Where the unquoting model currently stands in a word: outside any
/// quotes, inside single quotes, or inside double quotes.
pub enum QuoteState {
    Plain,
    InSingle,
    InDouble,
}

/// Characters that a POSIX shell may treat specially outside quotes; the
/// model refuses to evaluate a word containing one of these unquoted.
pub open spec fn special_unquoted(c: char) -> bool {
    c == ' ' || c == '\t' || c == '\n' || c == '$' || c == '`' || c == '\\' || c == '|' || c == '&'
        || c == ';' || c == '(' || c == ')' || c == '<' || c == '>' || c == '*' || c == '?' || c
        == '[' || c == '#' || c == '~' || c == '='
}

/// Characters still special inside double quotes.
pub open spec fn special_double(c: char) -> bool {
    c == '$' || c == '`' || c == '\\'
}

/// A model of how a POSIX shell evaluates one word: quote characters
/// toggle quoting states, quoted characters are literal, and any
/// construct the model does not cover (expansions, escapes, field
/// splitting, unterminated quotes) yields `None`.
pub open spec fn unquote_in(s: Seq<char>, st: QuoteState) -> Option<Seq<char>>
    decreases s.len(),
{
    if s.len() == 0 {
        match st {
            QuoteState::Plain => Some(Seq::empty()),
            _ => None,
        }
    } else {
        let c = s[0];
        let rest = s.drop_first();
        match st {
            QuoteState::Plain => {
                if c == '\'' {
                    unquote_in(rest, QuoteState::InSingle)
                } else if c == '"' {
                    unquote_in(rest, QuoteState::InDouble)
                } else if special_unquoted(c) {
                    None
                } else {
                    match unquote_in(rest, QuoteState::Plain) {
                        Some(t) => Some(seq![c] + t),
                        None => None,
                    }
                }
            },
            QuoteState::InSingle => {
                if c == '\'' {
                    unquote_in(rest, QuoteState::Plain)
                } else {
                    match unquote_in(rest, QuoteState::InSingle) {
                        Some(t) => Some(seq![c] + t),
                        None => None,
                    }
                }
            },
            QuoteState::InDouble => {
                if c == '"' {
                    unquote_in(rest, QuoteState::Plain)
                } else if special_double(c) {
                    None
                } else {
                    match unquote_in(rest, QuoteState::InDouble) {
                        Some(t) => Some(seq![c] + t),
                        None => None,
                    }
                }
            },
        }
    }
}

/// What a POSIX shell makes of the word `s`: `Some` of the literal string
/// when the model covers it, `None` otherwise.
pub open spec fn shell_unquote(s: Seq<char>) -> Option<Seq<char>> {
    unquote_in(s, QuoteState::Plain)
}

/// Inside single quotes, the escaped body of `s` followed by a closing
/// quote and any remaining word evaluates to `s` followed by whatever the
/// remaining word evaluates to.
proof fn lemma_unquote_escaped(s: Seq<char>, tail: Seq<char>)
    requires
        unquote_in(tail, QuoteState::Plain) is Some,
    ensures
        unquote_in(escaped_quotes(s) + seq!['\''] + tail, QuoteState::InSingle) == Some(
            s + unquote_in(tail, QuoteState::Plain).unwrap(),
        ),
    decreases s.len(),
{
    let whole = escaped_quotes(s) + seq!['\''] + tail;
    if s.len() == 0 {
        assert(whole =~= seq!['\''] + tail);
        assert(whole[0] == '\'');
        assert(whole.drop_first() =~= tail);
        assert(s + unquote_in(tail, QuoteState::Plain).unwrap() =~= unquote_in(
            tail,
            QuoteState::Plain,
        ).unwrap());
    } else {
        let c = s[0];
        let s1 = s.drop_first();
        lemma_unquote_escaped(s1, tail);
        let inner = escaped_quotes(s1) + seq!['\''] + tail;
        let t = unquote_in(tail, QuoteState::Plain).unwrap();
        if c == '\'' {
            assert(whole =~= seq!['\'', '"', '\'', '"', '\''] + inner);
            assert(whole[0] == '\'');
            let w1 = whole.drop_first();
            assert(w1 =~= seq!['"', '\'', '"', '\''] + inner);
            assert(w1[0] == '"');
            let w2 = w1.drop_first();
            assert(w2 =~= seq!['\'', '"', '\''] + inner);
            assert(w2[0] == '\'');
            assert(!special_double('\''));
            let w3 = w2.drop_first();
            assert(w3 =~= seq!['"', '\''] + inner);
            assert(w3[0] == '"');
            let w4 = w3.drop_first();
            assert(w4 =~= seq!['\''] + inner);
            assert(w4[0] == '\'');
            assert(w4.drop_first() =~= inner);
            assert(unquote_in(inner, QuoteState::InSingle) == Some(s1 + t));
            assert(unquote_in(w4, QuoteState::Plain) == Some(s1 + t));
            assert(unquote_in(w3, QuoteState::InDouble) == Some(s1 + t));
            assert(unquote_in(w2, QuoteState::InDouble) == Some(seq!['\''] + (s1 + t)));
            assert(unquote_in(w1, QuoteState::Plain) == Some(seq!['\''] + (s1 + t)));
            assert(unquote_in(whole, QuoteState::InSingle) == Some(seq!['\''] + (s1 + t)));
            assert(seq!['\''] + (s1 + t) =~= s + t);
        } else {
            assert(whole =~= seq![c] + inner);
            assert(whole[0] == c);
            assert(whole.drop_first() =~= inner);
            assert(unquote_in(whole, QuoteState::InSingle) == Some(seq![c] + (s1 + t)));
            assert(seq![c] + (s1 + t) =~= s + t);
        }
    }
}

/// Round trip: for every string `s`, the quoted form produced by
/// `shell_quote` evaluates back to exactly `s` under the POSIX unquoting
/// model — including the empty string, strings of quote characters, and
/// strings full of shell metacharacters.
pub proof fn lemma_shell_quote_round_trip(s: Seq<char>)
    ensures
        shell_unquote(quoted(s)) == Some(s),
{
    let whole = quoted(s);
    assert(whole[0] == '\'');
    assert(whole.drop_first() =~= escaped_quotes(s) + seq!['\''] + Seq::<char>::empty());
    assert(unquote_in(Seq::<char>::empty(), QuoteState::Plain) == Some(Seq::<char>::empty()));
    lemma_unquote_escaped(s, Seq::empty());
    assert(s + Seq::<char>::empty() =~= s);
}

/// Replacement for one character under the escaping used for strings
/// embedded in AppleScript source: backslash, double quote, and single
/// quote each get a preceding backslash.
pub open spec fn applescript_rep(c: char) -> Seq<char> {
    if c == '\\' {
        seq!['\\', '\\']
    } else if c == '"' {
        seq!['\\', '"']
    } else if c == '\'' {
        seq!['\\', '\'']
    } else {
        seq![c]
    }
}

pub open spec fn applescript_escaped(s: Seq<char>) -> Seq<char>
    decreases s.len(),
{
    if s.len() == 0 {
        Seq::empty()
    } else {
        applescript_rep(s[0]) + applescript_escaped(s.drop_first())
    }
}

proof fn lemma_applescript_snoc(s: Seq<char>, c: char)
    ensures
        applescript_escaped(s.push(c)) =~= applescript_escaped(s) + applescript_rep(c),
    decreases s.len(),
{
    if s.len() == 0 {
        assert(s.push(c)[0] == c);
        assert(s.push(c).drop_first() =~= Seq::<char>::empty());
        assert(applescript_escaped(Seq::<char>::empty()) =~= Seq::<char>::empty());
        assert(applescript_escaped(s.push(c)) =~= applescript_rep(c));
    } else {
        assert(s.push(c)[0] == s[0]);
        assert(s.push(c).drop_first() =~= s.drop_first().push(c));
        lemma_applescript_snoc(s.drop_first(), c);
        assert(applescript_escaped(s.push(c)) =~= applescript_rep(s[0]) + applescript_escaped(
            s.drop_first().push(c),
        ));
        assert(applescript_rep(s[0]) + (applescript_escaped(s.drop_first()) + applescript_rep(c))
            =~= (applescript_rep(s[0]) + applescript_escaped(s.drop_first())) + applescript_rep(c));
    }
}

/// Escapes a string for embedding in AppleScript source text.
pub fn escape_applescript(s: &str) -> (r: String)
    ensures
        r@ == applescript_escaped(s@),
{
    let n = s.unicode_len();
    let mut r = String::new();
    let mut i: usize = 0;
    assert(s@.subrange(0, 0) =~= Seq::<char>::empty());
    while i < n
        invariant
            n == s@.len(),
            i <= n,
            r@ == applescript_escaped(s@.subrange(0, i as int)),
        decreases n - i,
    {
        let ghost pre = s@.subrange(0, i as int);
        let c = s.get_char(i);
        if c == '\\' {
            r.append("\\\\");
            proof {
                reveal_strlit("\\\\");
                assert(("\\\\")@ =~= seq!['\\', '\\']);
            }
        } else if c == '"' {
            r.append("\\\"");
            proof {
                reveal_strlit("\\\"");
                assert(("\\\"")@ =~= seq!['\\', '"']);
            }
        } else if c == '\'' {
            r.append("\\'");
            proof {
                reveal_strlit("\\'");
                assert(("\\'")@ =~= seq!['\\', '\'']);
            }
        } else {
            let piece = s.substring_char(i, i + 1);
            r.append(piece);
            proof {
                assert(piece@ =~= seq![c]);
            }
        }
        proof {
            assert(s@.subrange(0, i + 1) =~= pre.push(c));
            lemma_applescript_snoc(pre, c);
        }
        i += 1;
    }
    assert(s@.subrange(0, n as int) =~= s@);
    r
}

} // verus!
