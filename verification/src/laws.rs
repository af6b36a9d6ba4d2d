//! Store-wide laws, proved from the model: appended indices grow
//! monotonically, setting a done state is idempotent, removal preserves
//! every other line, and a cleared store is empty.

use vstd::prelude::*;

use crate::bytes::is_digit;
use crate::bytes::is_space;
use crate::bytes::lemma_trim_start_no_leading;
use crate::bytes::lemma_trim_start_noop;
use crate::lines::chomp_cr;
use crate::lines::lemma_split_lines_concat;
use crate::lines::lemma_split_lines_no_nl;
use crate::lines::lemma_split_single;
use crate::lines::nl;
use crate::lines::no_cr_tail;
use crate::lines::split_lines;
use crate::model::append_content;
use crate::model::done_marker;
use crate::model::ends_with;
use crate::model::lemma_line_index_built;
use crate::model::lemma_mark_line_no_nl;
use crate::model::lemma_strip_done_props;
use crate::model::line_index;
use crate::model::line_text;
use crate::model::mark_content;
use crate::model::mark_line;
use crate::model::mark_lines;
use crate::model::matches_index;
use crate::model::max_index_lines;
use crate::model::max_index_of;
use crate::model::next_index_of;
use crate::model::no_nl;
use crate::model::remove_content;
use crate::model::remove_lines;
use crate::model::render_content;
use crate::model::render_lines;
use crate::model::set_done_text;
use crate::model::strip_done;
use crate::numerals::dec_digits;
use crate::numerals::lemma_dec_digits_are_digits;

verus! {

/// Law: a cleared store renders to the empty display, and the next added
/// record receives index 1.
pub proof fn lemma_clear_empties()
    ensures
        render_content(Seq::<u8>::empty()) == Seq::<u8>::empty(),
        next_index_of(Seq::<u8>::empty()) == 1,
{
    assert(split_lines(Seq::<u8>::empty()) =~= Seq::<Seq<u8>>::empty());
    assert(render_lines(Seq::<Seq<u8>>::empty()) =~= Seq::<u8>::empty());
}

/// Law: appending the record `<idx>. <msg>` to newline-terminated content
/// whose next index is `idx` makes `idx` the greatest index present, so the
/// following append receives `idx + 1` -- whatever removals happened before.
/// The message may not contain a newline: an embedded newline would open new
/// lines with indices of their own.
pub proof fn lemma_add_index_monotonic(c: Seq<u8>, msg: Seq<u8>, idx: usize)
    requires
        c.len() == 0 || c.last() == nl(),
        no_nl(msg),
        idx as int == next_index_of(c),
    ensures
        max_index_of(append_content(c, idx, msg)) == idx as int,
        next_index_of(append_content(c, idx, msg)) == idx as int + 1,
{
    let d = dec_digits(idx as nat);
    let new_line = d + seq![46u8, 32u8] + msg;
    lemma_dec_digits_are_digits(idx as nat);
    assert forall|j: int| 0 <= j < new_line.len() implies new_line[j] != nl() by {
        if j < d.len() {
            assert(new_line[j] == d[j]);
            assert(is_digit(d[j]));
        } else if j < d.len() + 2 {
            assert(new_line[j] == seq![46u8, 32u8][j - d.len()]);
        } else {
            assert(new_line[j] == msg[j - d.len() - 2]);
        }
    }
    let a = append_content(c, idx, msg);
    assert(a =~= c + (new_line + seq![nl()]));
    lemma_split_single(new_line);
    let nline = chomp_cr(new_line);
    let ls = split_lines(c);
    if c.len() == 0 {
        assert(c + (new_line + seq![nl()]) =~= new_line + seq![nl()]);
        assert(split_lines(a) == seq![nline]);
    } else {
        lemma_split_lines_concat(c, new_line + seq![nl()]);
        assert(split_lines(a) == ls + seq![nline]);
    }
    let ls2 = split_lines(a);
    assert(ls2 =~= ls.push(nline));
    assert(ls2.drop_last() =~= ls);
    assert(ls2.last() == nline);
    if new_line.len() > 0 && new_line.last() == 13 {
        assert(msg.len() > 0 && msg.last() == 13);
        assert(nline =~= d + seq![46u8, 32u8] + msg.drop_last());
        lemma_line_index_built(idx, msg.drop_last());
    } else {
        assert(nline == new_line);
        lemma_line_index_built(idx, msg);
    }
    assert(line_index(nline) == Some(idx as int));
    assert(max_index_lines(ls2) == idx as int);
}

/// The lines of `ls` whose index is not `idx`, byte-identical and in their
/// original relative order.
pub open spec fn kept_lines(ls: Seq<Seq<u8>>, idx: usize) -> Seq<Seq<u8>>
    decreases ls.len(),
{
    if ls.len() == 0 {
        Seq::empty()
    } else {
        let r = kept_lines(ls.drop_last(), idx);
        if matches_index(ls.last(), idx) {
            r
        } else {
            r.push(ls.last())
        }
    }
}

/// Rebuilt content after a removal is empty or newline-terminated.
proof fn lemma_remove_lines_ends_nl(ls: Seq<Seq<u8>>, idx: usize)
    ensures
        remove_lines(ls, idx).len() == 0 || remove_lines(ls, idx).last() == nl(),
    decreases ls.len(),
{
    if ls.len() > 0 {
        lemma_remove_lines_ends_nl(ls.drop_last(), idx);
    }
}

/// The lines of a rebuilt removal result are exactly the kept lines.
proof fn lemma_remove_lines_split(ls: Seq<Seq<u8>>, idx: usize)
    requires
        forall|k: int| 0 <= k < ls.len() ==> no_nl(#[trigger] ls[k]),
        forall|k: int| 0 <= k < ls.len() ==> no_cr_tail(#[trigger] ls[k]),
    ensures
        split_lines(remove_lines(ls, idx)) == kept_lines(ls, idx),
    decreases ls.len(),
{
    if ls.len() == 0 {
        assert(remove_lines(ls, idx) =~= Seq::<u8>::empty());
        assert(split_lines(remove_lines(ls, idx)) =~= kept_lines(ls, idx));
    } else {
        let dl = ls.drop_last();
        let last = ls.last();
        assert(forall|k: int| 0 <= k < dl.len() ==> no_nl(#[trigger] dl[k]));
        assert(forall|k: int| 0 <= k < dl.len() ==> no_cr_tail(#[trigger] dl[k]));
        lemma_remove_lines_split(dl, idx);
        let prev = remove_lines(dl, idx);
        if matches_index(last, idx) {
            assert(remove_lines(ls, idx) =~= prev);
            assert(kept_lines(ls, idx) == kept_lines(dl, idx));
        } else {
            assert(no_nl(last));
            assert(no_cr_tail(last));
            lemma_split_single(last);
            assert(chomp_cr(last) == last);
            lemma_remove_lines_ends_nl(dl, idx);
            if prev.len() == 0 {
                assert(remove_lines(ls, idx) =~= last + seq![nl()]);
                assert(split_lines(prev) =~= Seq::<Seq<u8>>::empty());
                assert(kept_lines(dl, idx) =~= Seq::<Seq<u8>>::empty());
                assert(split_lines(remove_lines(ls, idx)) =~= kept_lines(ls, idx));
            } else {
                assert(remove_lines(ls, idx) =~= prev + (last + seq![nl()]));
                lemma_split_lines_concat(prev, last + seq![nl()]);
                assert(split_lines(remove_lines(ls, idx)) =~= kept_lines(dl, idx).push(last));
                assert(split_lines(remove_lines(ls, idx)) =~= kept_lines(ls, idx));
            }
        }
    }
}

/// Law: after removing index `idx`, the store's lines are exactly the
/// original lines whose index is not `idx` -- each byte-identical, in its
/// original relative order.  A line that itself ends in a carriage return
/// (the file held a lone `\r` right before the terminator) is excluded:
/// written back as `<line>\n`, it re-reads with that `\r` taken for part
/// of the terminator.
pub proof fn lemma_remove_preserves_others(c: Seq<u8>, idx: usize)
    requires
        forall|k: int| 0 <= k < split_lines(c).len() ==> no_cr_tail(#[trigger] split_lines(c)[k]),
    ensures
        split_lines(remove_content(c, idx)) == kept_lines(split_lines(c), idx),
{
    lemma_split_lines_no_nl(c);
    let ls = split_lines(c);
    assert(forall|k: int| 0 <= k < ls.len() ==> no_nl(#[trigger] ls[k]));
    lemma_remove_lines_split(ls, idx);
}

/// Rebuilt content after a marking is empty or newline-terminated.
proof fn lemma_mark_lines_ends_nl(ls: Seq<Seq<u8>>, idx: usize, done: bool)
    ensures
        ls.len() > 0 ==> mark_lines(ls, idx, done).len() > 0 && mark_lines(ls, idx, done).last()
            == nl(),
{
}

/// The lines of a rebuilt marking result are the marked lines, one for one.
proof fn lemma_mark_lines_split(ls: Seq<Seq<u8>>, idx: usize, done: bool)
    requires
        forall|k: int| 0 <= k < ls.len() ==> no_nl(#[trigger] ls[k]),
        forall|k: int| 0 <= k < ls.len() ==> no_cr_tail(#[trigger] mark_line(ls[k], idx, done)),
    ensures
        split_lines(mark_lines(ls, idx, done)) == ls.map_values(
            |l: Seq<u8>| mark_line(l, idx, done),
        ),
    decreases ls.len(),
{
    let f = |l: Seq<u8>| mark_line(l, idx, done);
    if ls.len() == 0 {
        assert(mark_lines(ls, idx, done) =~= Seq::<u8>::empty());
        assert(split_lines(mark_lines(ls, idx, done)) =~= ls.map_values(f));
    } else {
        let dl = ls.drop_last();
        let last = ls.last();
        assert(forall|k: int| 0 <= k < dl.len() ==> no_nl(#[trigger] dl[k]));
        assert(forall|k: int|
            0 <= k < dl.len() ==> no_cr_tail(#[trigger] mark_line(dl[k], idx, done)));
        lemma_mark_lines_split(dl, idx, done);
        assert(no_nl(last));
        assert(no_cr_tail(mark_line(last, idx, done))) by {
            assert(mark_line(ls[ls.len() - 1], idx, done) == mark_line(last, idx, done));
        }
        lemma_mark_line_no_nl(last, idx, done);
        lemma_split_single(mark_line(last, idx, done));
        assert(chomp_cr(mark_line(last, idx, done)) == mark_line(last, idx, done));
        let tail = mark_line(last, idx, done) + seq![nl()];
        if dl.len() == 0 {
            assert(mark_lines(ls, idx, done) =~= tail);
            assert(split_lines(mark_lines(ls, idx, done)) =~= ls.map_values(f));
        } else {
            lemma_mark_lines_ends_nl(dl, idx, done);
            assert(mark_lines(ls, idx, done) =~= mark_lines(dl, idx, done) + tail);
            lemma_split_lines_concat(mark_lines(dl, idx, done), tail);
            assert(split_lines(mark_lines(ls, idx, done)) =~= dl.map_values(f).push(
                mark_line(last, idx, done),
            ));
            assert(split_lines(mark_lines(ls, idx, done)) =~= ls.map_values(f));
        }
    }
}

/// Marking one line twice gives the same line as marking it once, provided
/// a line marked done carries non-empty text.
proof fn lemma_mark_line_idempotent(l: Seq<u8>, idx: usize, done: bool)
    requires
        done && matches_index(l, idx) ==> line_text(l).len() > 0,
    ensures
        mark_line(mark_line(l, idx, done), idx, done) == mark_line(l, idx, done),
{
    if matches_index(l, idx) {
        let t = line_text(l);
        match crate::bytes::find_byte(l, 46) {
            None => {
                assert(false);
            },
            Some(dd) => {
                let x = l.skip(dd + 1);
                assert(t == crate::bytes::trim_start_spec(x));
                lemma_trim_start_no_leading(x);
            },
        }
        assert(t.len() > 0 ==> !is_space(t[0]));
        let t2 = set_done_text(t, done);
        let l2 = mark_line(l, idx, done);
        assert(l2 == dec_digits(idx as nat) + seq![46u8, 32u8] + t2);
        lemma_line_index_built(idx, t2);
        assert(matches_index(l2, idx));
        assert(line_text(l2) == crate::bytes::trim_start_spec(t2));
        if done {
            if ends_with(t, done_marker()) {
                assert(t2 == t);
                assert(t.len() >= 3);
                lemma_trim_start_noop(t2);
                assert(set_done_text(crate::bytes::trim_start_spec(t2), done) == t2);
            } else {
                assert(t2 == t + done_marker());
                assert(t.len() > 0);
                assert(t2[0] == t[0]);
                lemma_trim_start_noop(t2);
                assert(t2.subrange(t2.len() - 3, t2.len() as int) =~= done_marker());
                assert(ends_with(t2, done_marker()));
                assert(set_done_text(crate::bytes::trim_start_spec(t2), done) == t2);
            }
        } else {
            assert(t2 == strip_done(t));
            lemma_strip_done_props(t);
            if t2.len() > 0 {
                assert(t2[0] == t[0]);
                assert(t.len() > 0);
            }
            lemma_trim_start_noop(t2);
            lemma_strip_done_props(t2);
            assert(set_done_text(crate::bytes::trim_start_spec(t2), done) == t2);
        }
        assert(mark_line(l2, idx, done) == l2);
    }
}

/// Marking every line a second time changes nothing.
proof fn lemma_mark_lines_twice(ls: Seq<Seq<u8>>, idx: usize, done: bool)
    requires
        done ==> forall|k: int|
            0 <= k < ls.len() && #[trigger] matches_index(ls[k], idx) ==> line_text(
                ls[k],
            ).len() > 0,
    ensures
        mark_lines(ls.map_values(|l: Seq<u8>| mark_line(l, idx, done)), idx, done) == mark_lines(
            ls,
            idx,
            done,
        ),
    decreases ls.len(),
{
    let f = |l: Seq<u8>| mark_line(l, idx, done);
    let m = ls.map_values(f);
    if ls.len() == 0 {
        assert(m =~= Seq::<Seq<u8>>::empty());
    } else {
        let dl = ls.drop_last();
        let last = ls.last();
        assert(forall|k: int| 0 <= k < dl.len() ==> dl[k] == ls[k]);
        lemma_mark_lines_twice(dl, idx, done);
        if done && matches_index(last, idx) {
            assert(line_text(last).len() > 0) by {
                assert(matches_index(ls[ls.len() - 1], idx));
            }
        }
        lemma_mark_line_idempotent(last, idx, done);
        assert(m.drop_last() =~= dl.map_values(f));
        assert(m.last() == f(last));
        assert(m.len() > 0);
        assert(mark_lines(m, idx, done) == mark_lines(m.drop_last(), idx, done) + mark_line(
            m.last(),
            idx,
            done,
        ) + seq![nl()]);
        assert(mark_lines(m, idx, done) == mark_lines(ls, idx, done));
    }
}

/// Law: setting a record's done state twice leaves the same stored content
/// as setting it once.  When marking done, every line whose index is `idx`
/// must carry non-empty text: the marker added to an empty text begins with
/// the separating space, which the next parse swallows, so a second marking
/// would add a second marker.  Also excluded are lines that end in a lone
/// carriage return, and, when unmarking, a text whose marker-stripped form
/// ends in one: written back before `\n`, such a `\r` is taken for part of
/// the terminator on the next parse.
pub proof fn lemma_set_done_idempotent(c: Seq<u8>, idx: usize, done: bool)
    requires
        forall|k: int| 0 <= k < split_lines(c).len() ==> no_cr_tail(#[trigger] split_lines(c)[k]),
        done ==> forall|k: int|
            0 <= k < split_lines(c).len() && #[trigger] matches_index(split_lines(c)[k], idx)
                ==> line_text(split_lines(c)[k]).len() > 0,
        !done ==> forall|k: int|
            0 <= k < split_lines(c).len() && #[trigger] matches_index(split_lines(c)[k], idx)
                ==> no_cr_tail(strip_done(line_text(split_lines(c)[k]))),
    ensures
        mark_content(mark_content(c, idx, done), idx, done) == mark_content(c, idx, done),
{
    let ls = split_lines(c);
    lemma_split_lines_no_nl(c);
    assert(forall|k: int| 0 <= k < ls.len() ==> no_nl(#[trigger] ls[k]));
    lemma_dec_digits_are_digits(idx as nat);
    assert forall|k: int|
        0 <= k < ls.len() implies no_cr_tail(#[trigger] mark_line(ls[k], idx, done)) by {
        let l = ls[k];
        if matches_index(l, idx) {
            let t = line_text(l);
            let t2 = set_done_text(t, done);
            let m = mark_line(l, idx, done);
            assert(m == dec_digits(idx as nat) + seq![46u8, 32u8] + t2);
            if done {
                if ends_with(t, done_marker()) {
                    assert(t2 == t);
                    assert(t.subrange(t.len() - 3, t.len() as int) == done_marker());
                    assert(t.subrange(t.len() - 3, t.len() as int)[2] == t[t.len() - 1]);
                    assert(t[t.len() - 1] == 115);
                } else {
                    assert(t2 == t + done_marker());
                    assert(t2[t2.len() - 1] == 115);
                }
                assert(t2.len() > 0);
                assert(m.last() == t2.last());
            } else {
                assert(t2 == strip_done(t));
                assert(no_cr_tail(t2));
                if t2.len() > 0 {
                    assert(m.last() == t2.last());
                } else {
                    assert(m.last() == 32);
                }
            }
        } else {
            assert(mark_line(l, idx, done) == l);
            assert(no_cr_tail(ls[k]));
        }
    }
    lemma_mark_lines_split(ls, idx, done);
    let c1 = mark_content(c, idx, done);
    assert(split_lines(c1) == ls.map_values(|l: Seq<u8>| mark_line(l, idx, done)));
    lemma_mark_lines_twice(ls, idx, done);
}

} // verus!
