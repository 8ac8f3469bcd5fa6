//! Tokenization of a chosen command string into a program name and its
//! arguments, ready to be handed to a process-replacing front end.

use vstd::prelude::*;
use crate::text::chars_to_string;
use crate::text::str_to_chars;

verus! {

/// The tokenizer's scan, from position `i` with the quote mode `in_q`, the
/// token built so far `cur`, and the tokens already finished `acc`: a
/// double quote toggles the quote mode without joining any token; a space
/// outside quotes finishes the current token, if any; every other character
/// extends the current token. At the end the current token is flushed if it
/// is non-empty.
pub open spec fn scan_tokens(
    s: Seq<char>,
    i: int,
    in_q: bool,
    cur: Seq<char>,
    acc: Seq<Seq<char>>,
) -> Seq<Seq<char>>
    decreases s.len() - i,
{
    if i < 0 || i >= s.len() {
        if cur.len() == 0 {
            acc
        } else {
            acc.push(cur)
        }
    } else {
        let c = s[i];
        if c == '"' {
            scan_tokens(s, i + 1, !in_q, cur, acc)
        } else if c == ' ' && !in_q {
            if cur.len() == 0 {
                scan_tokens(s, i + 1, in_q, cur, acc)
            } else {
                scan_tokens(s, i + 1, in_q, Seq::empty(), acc.push(cur))
            }
        } else {
            scan_tokens(s, i + 1, in_q, cur.push(c), acc)
        }
    }
}

/// The tokens of a command string: double quotes toggle an "inside quotes"
/// mode (and are dropped), spaces separate tokens only outside quotes, and
/// consecutive separators produce no empty tokens. An unmatched quote
/// simply leaves the rest of the string inside quotes.
pub open spec fn tokens_of(s: Seq<char>) -> Seq<Seq<char>> {
    scan_tokens(s, 0, false, Seq::empty(), Seq::empty())
}

/// Splits a command string into a program name (the first token) and its
/// arguments (the remaining tokens, in order). An empty or all-separator
/// input yields an empty program name and no arguments.
pub fn parse_command_string(input: &str) -> (r: (String, Vec<String>))
    ensures
        tokens_of(input@).len() == 0 ==> r.0@ == Seq::<char>::empty() && r.1@.len() == 0,
        tokens_of(input@).len() > 0 ==> r.0@ == tokens_of(input@)[0] && r.1.deep_view()
            == tokens_of(input@).subrange(1, tokens_of(input@).len() as int),
{
    let s = str_to_chars(input);
    let n = s.len();
    let mut parts: Vec<String> = Vec::new();
    let mut cur: Vec<char> = Vec::new();
    let mut in_quotes = false;
    let mut i: usize = 0;
    proof {
        assert(parts.deep_view() =~= Seq::<Seq<char>>::empty());
    }
    while i < n
        invariant
            i <= n,
            n == s@.len(),
            s@ == input@,
            tokens_of(input@) == scan_tokens(s@, i as int, in_quotes, cur@, parts.deep_view()),
        decreases n - i,
    {
        let ghost pre_parts = parts.deep_view();
        let c = s[i];
        if c == '"' {
            in_quotes = !in_quotes;
        } else if c == ' ' && !in_quotes {
            if cur.len() > 0 {
                let ghost cur_pre = cur@;
                let token = chars_to_string(&cur);
                parts.push(token);
                cur = Vec::new();
                proof {
                    assert(parts.deep_view() =~= pre_parts.push(cur_pre));
                    assert(cur@ =~= Seq::<char>::empty());
                }
            }
        } else {
            cur.push(c);
        }
        i = i + 1;
    }
    let ghost parts_deep = parts.deep_view();
    let mut tokens = parts;
    if cur.len() > 0 {
        let last = chars_to_string(&cur);
        tokens.push(last);
        proof {
            assert(tokens.deep_view() =~= parts_deep.push(cur@));
        }
    }
    proof {
        assert(tokens.deep_view() == tokens_of(input@));
    }
    let program: String = if tokens.len() > 0 {
        let first = &tokens[0];
        first.clone()
    } else {
        String::new()
    };
    let mut args: Vec<String> = Vec::new();
    if tokens.len() > 0 {
        let mut j: usize = 1;
        while j < tokens.len()
            invariant
                1 <= j <= tokens@.len(),
                args.deep_view() == tokens.deep_view().subrange(1, j as int),
            decreases tokens@.len() - j,
        {
            let ghost pre = args.deep_view();
            let entry = &tokens[j];
            let cloned = entry.clone();
            args.push(cloned);
            proof {
                assert(args.deep_view() =~= pre.push(tokens.deep_view()[j as int]));
                assert(tokens.deep_view().subrange(1, j as int).push(tokens.deep_view()[j as int])
                    =~= tokens.deep_view().subrange(1, j + 1));
            }
            j = j + 1;
        }
        proof {
            assert(args.deep_view() =~= tokens.deep_view().subrange(
                1,
                tokens.deep_view().len() as int,
            ));
        }
    }
    (program, args)
}

} // verus!
