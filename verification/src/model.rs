//! The mathematical model of the record store: what a line's index is, how
//! each operation transforms the lines of the content, and the supporting
//! lemmas about those transforms.
//!
//! A record line has the shape `<index>. <text>[ -s]`: the index is the text
//! before the first period, trimmed and read as a decimal number, and the
//! trailing ` -s` marks the record done.

use vstd::prelude::*;

use crate::bytes::all_digits;
use crate::bytes::find_byte;
use crate::bytes::is_digit;
use crate::bytes::is_space;
use crate::bytes::lemma_find_byte_at;
use crate::bytes::lemma_trim_digits;
use crate::bytes::trim_spec;
use crate::bytes::trim_start_spec;
use crate::lines::nl;
use crate::lines::split_lines;
use crate::numerals::dec_digits;
use crate::numerals::digits_val;
use crate::numerals::lemma_dec_digits_are_digits;
use crate::numerals::lemma_dec_digits_val;
use crate::numerals::token_parses;

verus! {

/// The done marker as stored: a space, a dash, an `s`.
pub open spec fn done_marker() -> Seq<u8> {
    seq![32u8, 45u8, 115u8]
}

/// Terminal escape that starts strikethrough.
pub open spec fn strike_on() -> Seq<u8> {
    seq![27u8, 91u8, 57u8, 109u8]
}

/// Terminal escape that ends strikethrough.
pub open spec fn strike_off() -> Seq<u8> {
    seq![27u8, 91u8, 48u8, 109u8]
}

/// No byte of `s` is a newline.
pub open spec fn no_nl(s: Seq<u8>) -> bool {
    forall|j: int| 0 <= j < s.len() ==> s[j] != nl()
}

/// `s` ends with `suf`.
pub open spec fn ends_with(s: Seq<u8>, suf: Seq<u8>) -> bool {
    s.len() >= suf.len() && s.subrange(s.len() - suf.len(), s.len() as int) == suf
}

/// `s` with every trailing ` -s` marker removed.
pub open spec fn strip_done(s: Seq<u8>) -> Seq<u8>
    decreases s.len(),
{
    if ends_with(s, done_marker()) {
        strip_done(s.take(s.len() - 3))
    } else {
        s
    }
}

/// The index of a line: the text before the first period, trimmed, read as a
/// decimal number.  `None` when there is no period, the token is empty or
/// not all digits, or the value overflows the machine's word.
pub open spec fn line_index(l: Seq<u8>) -> Option<int> {
    match find_byte(l, 46) {
        None => None,
        Some(d) => {
            let tok = trim_spec(l.take(d));
            if token_parses(tok) {
                Some(digits_val(tok))
            } else {
                None
            }
        },
    }
}

/// The text of an indexed line: everything after the first period, with
/// leading whitespace removed.
pub open spec fn line_text(l: Seq<u8>) -> Seq<u8> {
    match find_byte(l, 46) {
        None => Seq::empty(),
        Some(d) => trim_start_spec(l.skip(d + 1)),
    }
}

/// The line's parsed index equals `idx`.
pub open spec fn matches_index(l: Seq<u8>, idx: usize) -> bool {
    line_index(l) == Some(idx as int)
}

/// Some line of `ls` has index `idx`.
pub open spec fn has_index(ls: Seq<Seq<u8>>, idx: usize) -> bool {
    exists|k: int| 0 <= k < ls.len() && #[trigger] matches_index(ls[k], idx)
}

/// The display form of one line: the text before the first space, a space,
/// and the tidied remainder -- struck through when it carries the marker.
/// A line without a space is not displayed.
pub open spec fn render_line(l: Seq<u8>) -> Option<Seq<u8>> {
    match find_byte(l, 32) {
        None => None,
        Some(sp) => {
            let num = l.take(sp);
            let rest = l.skip(sp + 1);
            if ends_with(rest, done_marker()) {
                Some(num + seq![32u8] + strike_on() + trim_spec(strip_done(rest)) + strike_off())
            } else {
                Some(num + seq![32u8] + trim_start_spec(rest))
            }
        },
    }
}

/// The rendered display of a sequence of lines, one newline-terminated
/// display line for each line that renders.
pub open spec fn render_lines(ls: Seq<Seq<u8>>) -> Seq<u8>
    decreases ls.len(),
{
    if ls.len() == 0 {
        Seq::empty()
    } else {
        render_lines(ls.drop_last()) + match render_line(ls.last()) {
            Some(f) => f + seq![nl()],
            None => Seq::empty(),
        }
    }
}

/// The rendered display of the whole content.
pub open spec fn render_content(c: Seq<u8>) -> Seq<u8> {
    render_lines(split_lines(c))
}

/// The content rebuilt with every line of index `idx` dropped; all other
/// lines pass through unchanged, each newline-terminated.
pub open spec fn remove_lines(ls: Seq<Seq<u8>>, idx: usize) -> Seq<u8>
    decreases ls.len(),
{
    if ls.len() == 0 {
        Seq::empty()
    } else {
        remove_lines(ls.drop_last(), idx) + if matches_index(ls.last(), idx) {
            Seq::<u8>::empty()
        } else {
            ls.last() + seq![nl()]
        }
    }
}

pub open spec fn remove_content(c: Seq<u8>, idx: usize) -> Seq<u8> {
    remove_lines(split_lines(c), idx)
}

/// A record's text with its done state set: marked, the text gains one
/// trailing marker unless already present; unmarked, it loses every
/// trailing marker.
pub open spec fn set_done_text(t: Seq<u8>, done: bool) -> Seq<u8> {
    if done {
        if ends_with(t, done_marker()) {
            t
        } else {
            t + done_marker()
        }
    } else {
        strip_done(t)
    }
}

/// One line with its done state set: a matching line is rebuilt as
/// `<idx>. <text'>`; any other line passes through unchanged.
pub open spec fn mark_line(l: Seq<u8>, idx: usize, done: bool) -> Seq<u8> {
    if matches_index(l, idx) {
        dec_digits(idx as nat) + seq![46u8, 32u8] + set_done_text(line_text(l), done)
    } else {
        l
    }
}

/// The content rebuilt with every line's done state set where it matches,
/// each line newline-terminated.
pub open spec fn mark_lines(ls: Seq<Seq<u8>>, idx: usize, done: bool) -> Seq<u8>
    decreases ls.len(),
{
    if ls.len() == 0 {
        Seq::empty()
    } else {
        mark_lines(ls.drop_last(), idx, done) + mark_line(ls.last(), idx, done) + seq![nl()]
    }
}

pub open spec fn mark_content(c: Seq<u8>, idx: usize, done: bool) -> Seq<u8> {
    mark_lines(split_lines(c), idx, done)
}

/// The greatest parsed index among the lines, 0 when none parses.
pub open spec fn max_index_lines(ls: Seq<Seq<u8>>) -> int
    decreases ls.len(),
{
    if ls.len() == 0 {
        0
    } else {
        let m = max_index_lines(ls.drop_last());
        match line_index(ls.last()) {
            Some(v) => if v > m {
                v
            } else {
                m
            },
            None => m,
        }
    }
}

pub open spec fn max_index_of(c: Seq<u8>) -> int {
    max_index_lines(split_lines(c))
}

/// The index the next added record receives.
pub open spec fn next_index_of(c: Seq<u8>) -> int {
    max_index_of(c) + 1
}

/// The content after appending the record line `<idx>. <msg>`.
pub open spec fn append_content(c: Seq<u8>, idx: usize, msg: Seq<u8>) -> Seq<u8> {
    c + dec_digits(idx as nat) + seq![46u8, 32u8] + msg + seq![nl()]
}

/// A rebuilt record line `<idx>. <t>` parses back to index `idx`, with its
/// period right after the digits.
pub proof fn lemma_line_index_built(idx: usize, t: Seq<u8>)
    ensures
        find_byte(dec_digits(idx as nat) + seq![46u8, 32u8] + t, 46) == Some(
            dec_digits(idx as nat).len() as int,
        ),
        line_index(dec_digits(idx as nat) + seq![46u8, 32u8] + t) == Some(idx as int),
        line_text(dec_digits(idx as nat) + seq![46u8, 32u8] + t) == trim_start_spec(t),
{
    let d = dec_digits(idx as nat);
    lemma_dec_digits_are_digits(idx as nat);
    lemma_dec_digits_val(idx as nat);
    let l = d + seq![46u8, 32u8] + t;
    let k = d.len() as int;
    assert(l[k] == 46);
    assert forall|j: int| 0 <= j < k implies l[j] != 46 by {
        assert(l[j] == d[j]);
        assert(is_digit(d[j]));
    }
    lemma_find_byte_at(l, 46, k);
    assert(l.take(k) =~= d);
    lemma_trim_digits(d);
    assert(token_parses(d));
    assert(line_index(l) == Some(idx as int));
    let after = l.skip(k + 1);
    assert(after =~= seq![32u8] + t);
    assert(after.len() > 0 && is_space(after[0]));
    assert(after.skip(1) =~= t);
    assert(line_text(l) == trim_start_spec(t));
}

/// Stripping markers never exposes a trailing marker, keeps the first byte,
/// and is idempotent.
pub proof fn lemma_strip_done_props(t: Seq<u8>)
    ensures
        !ends_with(strip_done(t), done_marker()),
        strip_done(t).len() > 0 ==> strip_done(t)[0] == t[0],
        strip_done(strip_done(t)) == strip_done(t),
    decreases t.len(),
{
    if ends_with(t, done_marker()) {
        let p = t.take(t.len() - 3);
        lemma_strip_done_props(p);
        if strip_done(p).len() > 0 {
            assert(p[0] == t[0]);
        }
    }
}

/// A transformed line holds no newline when the original holds none.
pub proof fn lemma_mark_line_no_nl(l: Seq<u8>, idx: usize, done: bool)
    requires
        no_nl(l),
    ensures
        no_nl(mark_line(l, idx, done)),
{
    if matches_index(l, idx) {
        let d = dec_digits(idx as nat);
        lemma_dec_digits_are_digits(idx as nat);
        let t = line_text(l);
        assert(no_nl(t)) by {
            lemma_no_nl_line_text(l);
        }
        let t2 = set_done_text(t, done);
        assert(no_nl(t2)) by {
            if done {
                if !ends_with(t, done_marker()) {
                    assert(forall|j: int|
                        0 <= j < t2.len() ==> t2[j] == (if j < t.len() {
                            t[j]
                        } else {
                            done_marker()[j - t.len()]
                        }));
                }
            } else {
                lemma_no_nl_strip_done(t);
            }
        }
        let m = mark_line(l, idx, done);
        assert forall|j: int| 0 <= j < m.len() implies m[j] != nl() by {
            if j < d.len() {
                assert(m[j] == d[j]);
                assert(is_digit(d[j]));
            } else if j < d.len() + 2 {
                assert(m[j] == seq![46u8, 32u8][j - d.len()]);
            } else {
                assert(m[j] == t2[j - d.len() - 2]);
            }
        }
    }
}

/// The text of a newline-free line holds no newline.
pub proof fn lemma_no_nl_line_text(l: Seq<u8>)
    requires
        no_nl(l),
    ensures
        no_nl(line_text(l)),
{
    match find_byte(l, 46) {
        None => {},
        Some(d) => {
            crate::bytes::lemma_find_byte(l, 46);
            assert(no_nl(l.skip(d + 1)));
            lemma_no_nl_trim_start(l.skip(d + 1));
        },
    }
}

/// Trimming at the front keeps a newline-free sequence newline-free.
pub proof fn lemma_no_nl_trim_start(s: Seq<u8>)
    requires
        no_nl(s),
    ensures
        no_nl(trim_start_spec(s)),
    decreases s.len(),
{
    if s.len() > 0 && is_space(s[0]) {
        assert(no_nl(s.skip(1)));
        lemma_no_nl_trim_start(s.skip(1));
    }
}

/// Stripping markers keeps a newline-free sequence newline-free.
pub proof fn lemma_no_nl_strip_done(t: Seq<u8>)
    requires
        no_nl(t),
    ensures
        no_nl(strip_done(t)),
    decreases t.len(),
{
    if ends_with(t, done_marker()) {
        assert(no_nl(t.take(t.len() - 3)));
        lemma_no_nl_strip_done(t.take(t.len() - 3));
    }
}

} // verus!
