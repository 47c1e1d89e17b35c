//! Removal of parenthesised header comments.
//!
//! A comment is an opening parenthesis up to the nearest closing one after it;
//! nesting is not recognised. Each comment becomes a single space, and a
//! parenthesis with no partner is left where it is.

use vstd::prelude::*;

verus! {

pub open spec fn has_char(t: Seq<char>, c: char) -> bool
    decreases t.len(),
{
    t.len() > 0 && (t[0] == c || has_char(t.drop_first(), c))
}

/// The text that remains of `s` once its comments are replaced by spaces;
/// `inside` says whether the scan starts within a comment.
pub open spec fn strip_from(s: Seq<char>, inside: bool) -> Seq<char>
    decreases s.len(),
{
    if s.len() == 0 {
        seq![]
    } else if inside {
        if s[0] == ')' {
            strip_from(s.drop_first(), false)
        } else {
            strip_from(s.drop_first(), true)
        }
    } else if s[0] == '(' && has_char(s.drop_first(), ')') {
        seq![' '] + strip_from(s.drop_first(), true)
    } else {
        seq![s[0]] + strip_from(s.drop_first(), false)
    }
}

/// How many comments the scan of `strip_from(s, inside)` replaces.
pub open spec fn comments_from(s: Seq<char>, inside: bool) -> nat
    decreases s.len(),
{
    if s.len() == 0 {
        0
    } else if inside {
        if s[0] == ')' {
            comments_from(s.drop_first(), false)
        } else {
            comments_from(s.drop_first(), true)
        }
    } else if s[0] == '(' && has_char(s.drop_first(), ')') {
        1 + comments_from(s.drop_first(), true)
    } else {
        comments_from(s.drop_first(), false)
    }
}

/// How many comments `strip_comments(s)` replaces.
pub open spec fn comment_count(s: Seq<char>) -> nat {
    comments_from(s, false)
}

pub open spec fn strip_comments(s: Seq<char>) -> Seq<char> {
    strip_from(s, false)
}

/// No opening parenthesis in `t` has a closing one after it.
pub open spec fn comment_free(t: Seq<char>) -> bool
    decreases t.len(),
{
    t.len() == 0 || ((t[0] == '(' ==> !has_char(t.drop_first(), ')')) && comment_free(
        t.drop_first(),
    ))
}

/// Relies on regex's `Regex::new` and `Regex::replace_all`: the pattern
/// `\([\s\S]*?\)` matches from an opening parenthesis to the nearest closing
/// one, and the matches, taken leftmost first without overlap, become " ".
#[verifier::external_body]
fn replace_comments(header: &str) -> (r: String)
    ensures
        r@ == strip_comments(header@),
{
    regex::Regex::new(r"\([\s\S]*?\)").unwrap().replace_all(header, " ").into_owned()
}

/// `header` with every comment replaced by a single space.
pub fn remove_comments(header: &str) -> (r: String)
    ensures
        r@ == strip_comments(header@),
{
    replace_comments(header)
}

proof fn lemma_strip_keeps_no_char(s: Seq<char>, inside: bool, c: char)
    requires
        !has_char(s, c),
        c != ' ',
    ensures
        !has_char(strip_from(s, inside), c),
    decreases s.len(),
{
    if s.len() > 0 {
        let rest = s.drop_first();
        lemma_strip_keeps_no_char(rest, true, c);
        lemma_strip_keeps_no_char(rest, false, c);
        if !inside && s[0] == '(' && has_char(rest, ')') {
            assert((seq![' '] + strip_from(rest, true)).drop_first() =~= strip_from(rest, true));
        } else if !inside {
            assert((seq![s[0]] + strip_from(rest, false)).drop_first() =~= strip_from(
                rest,
                false,
            ));
        }
    }
}

proof fn lemma_strip_comment_free(s: Seq<char>, inside: bool)
    ensures
        comment_free(strip_from(s, inside)),
    decreases s.len(),
{
    if s.len() > 0 {
        let rest = s.drop_first();
        lemma_strip_comment_free(rest, true);
        lemma_strip_comment_free(rest, false);
        if !inside && s[0] == '(' && has_char(rest, ')') {
            assert((seq![' '] + strip_from(rest, true)).drop_first() =~= strip_from(rest, true));
        } else if !inside {
            let out = seq![s[0]] + strip_from(rest, false);
            assert(out.drop_first() =~= strip_from(rest, false));
            if s[0] == '(' {
                lemma_strip_keeps_no_char(rest, false, ')');
            }
        }
    }
}

proof fn lemma_comment_free_fixed(t: Seq<char>)
    requires
        comment_free(t),
    ensures
        strip_from(t, false) == t,
    decreases t.len(),
{
    if t.len() > 0 {
        lemma_comment_free_fixed(t.drop_first());
        assert(seq![t[0]] + t.drop_first() =~= t);
    }
}

/// Removing comments a second time changes nothing.
pub proof fn lemma_remove_comments_idempotent(s: Seq<char>)
    ensures
        strip_comments(strip_comments(s)) == strip_comments(s),
{
    lemma_strip_comment_free(s, false);
    lemma_comment_free_fixed(strip_comments(s));
}

proof fn lemma_strip_len_count(s: Seq<char>, inside: bool)
    requires
        inside ==> has_char(s, ')'),
    ensures
        strip_from(s, inside).len() + comments_from(s, inside) + (if inside {
            1int
        } else {
            0int
        }) <= s.len(),
    decreases s.len(),
{
    if s.len() > 0 {
        let rest = s.drop_first();
        if inside {
            if s[0] == ')' {
                lemma_strip_len_count(rest, false);
            } else {
                lemma_strip_len_count(rest, true);
            }
        } else if s[0] == '(' && has_char(rest, ')') {
            lemma_strip_len_count(rest, true);
        } else {
            lemma_strip_len_count(rest, false);
        }
    }
}

proof fn lemma_no_comment_unchanged(s: Seq<char>)
    requires
        comments_from(s, false) == 0,
    ensures
        strip_from(s, false) == s,
    decreases s.len(),
{
    if s.len() > 0 {
        lemma_no_comment_unchanged(s.drop_first());
        assert(seq![s[0]] + s.drop_first() =~= s);
    }
}

/// Each comment, at least two characters from `(` to `)`, becomes one space:
/// the result is shorter by at least the number of comments, and it is as
/// long as the header only where nothing was removed.
pub proof fn lemma_remove_comments_length(s: Seq<char>)
    ensures
        strip_comments(s).len() + comment_count(s) <= s.len(),
        strip_comments(s).len() == s.len() <==> strip_comments(s) == s,
{
    lemma_strip_len_count(s, false);
    if strip_comments(s).len() == s.len() {
        lemma_no_comment_unchanged(s);
    }
}

} // verus!
