//! The record store: the whole file's content held as bytes, with the
//! verified operations on it -- append a record, remove or re-mark a record
//! by index, render for display, truncate, and read the content back.

use vstd::prelude::*;

use crate::bytes::find_byte_vec;
use crate::bytes::push_seq;
use crate::bytes::subvec;
use crate::bytes::trim_start_vec;
use crate::bytes::trim_vec;
use crate::lines::lines_of;
use crate::lines::nl;
use crate::lines::split_lines;
use crate::model::append_content;
use crate::model::done_marker;
use crate::model::ends_with;
use crate::model::has_index;
use crate::model::line_index;
use crate::model::mark_content;
use crate::model::mark_line;
use crate::model::mark_lines;
use crate::model::matches_index;
use crate::model::max_index_lines;
use crate::model::max_index_of;
use crate::model::next_index_of;
use crate::model::remove_content;
use crate::model::remove_lines;
use crate::model::render_content;
use crate::model::render_line;
use crate::model::render_lines;
use crate::model::set_done_text;
use crate::model::strip_done;
use crate::model::strike_off;
use crate::model::strike_on;
use crate::numerals::fmt_usize;
use crate::numerals::parse_index_token;

verus! {

/// An operation that targets a record by index failed to find it.
#[derive(Clone, Copy, Debug, PartialEq, Eq, Structural)]
pub enum StoreError {
    NotFound,
}

/// Parses the index of one line: the text before the first period, trimmed,
/// as a decimal number.
pub fn parse_line_index(l: &Vec<u8>) -> (r: Option<usize>)
    ensures
        match r {
            Some(n) => line_index(l@) == Some(n as int),
            None => line_index(l@) is None,
        },
{
    match find_byte_vec(l, 46) {
        None => None,
        Some(d) => {
            proof {
                crate::bytes::lemma_find_byte(l@, 46);
            }
            let head = subvec(l, 0, d);
            let tok = trim_vec(&head);
            proof {
                assert(head@ =~= l@.take(d as int));
            }
            parse_index_token(&tok)
        },
    }
}

/// Whether `v` ends with the stored done marker ` -s`.
fn ends_with_done(v: &Vec<u8>) -> (r: bool)
    ensures
        r == ends_with(v@, done_marker()),
{
    let n = v.len();
    if n >= 3 && v[n - 3] == 32 && v[n - 2] == 45 && v[n - 1] == 115 {
        proof {
            assert(v@.subrange(n - 3, n as int) =~= done_marker());
        }
        true
    } else {
        proof {
            if ends_with(v@, done_marker()) {
                assert(v@.subrange(n - 3, n as int)[0] == v@[n - 3]);
                assert(v@.subrange(n - 3, n as int)[1] == v@[n - 2]);
                assert(v@.subrange(n - 3, n as int)[2] == v@[n - 1]);
            }
        }
        false
    }
}

/// The record store: the full content of the task list, one record per
/// newline-terminated line.  Its view is the content as a byte sequence.
pub struct TodoStore {
    content: Vec<u8>,
}

impl View for TodoStore {
    type V = Seq<u8>;

    closed spec fn view(&self) -> Seq<u8> {
        self.content@
    }
}

impl TodoStore {
    /// An empty store.
    pub fn new() -> (s: Self)
        ensures
            s@ == Seq::<u8>::empty(),
    {
        TodoStore { content: Vec::new() }
    }

    /// A store over the given content, as read from the backing file.
    pub fn from_content(content: Vec<u8>) -> (s: Self)
        ensures
            s@ == content@,
    {
        TodoStore { content }
    }

    /// A copy of the content, to be written back to the backing file.
    pub fn get_list_content(&self) -> (r: Vec<u8>)
        ensures
            r@ == self@,
    {
        let r = subvec(&self.content, 0, self.content.len());
        proof {
            assert(self.content@.subrange(0, self.content@.len() as int) =~= self.content@);
        }
        r
    }

    /// Truncates the content to at most `size` bytes; `0` clears the list.
    pub fn set_list_length(&mut self, size: usize)
        ensures
            size <= old(self)@.len() ==> final(self)@ == old(self)@.subrange(0, size as int),
            size > old(self)@.len() ==> final(self)@ == old(self)@,
    {
        self.content.truncate(size);
    }

    /// The greatest record index present, 0 when none is.
    pub fn max_list_index(&self) -> (r: usize)
        ensures
            r as int == max_index_of(self@),
    {
        let lines = lines_of(&self.content);
        let ghost ls = split_lines(self.content@);
        let n = lines.len();
        let mut m: usize = 0;
        let mut i: usize = 0;
        proof {
            assert(ls.take(0) =~= Seq::<Seq<u8>>::empty());
        }
        while i < n
            invariant
                i <= n == ls.len(),
                lines@.map_values(|l: Vec<u8>| l@) == ls,
                m as int == max_index_lines(ls.take(i as int)),
            decreases n - i,
        {
            proof {
                assert(ls.take(i + 1).drop_last() =~= ls.take(i as int));
                assert(ls.take(i + 1).last() == ls[i as int]);
                assert(lines@[i as int]@ == ls[i as int]);
            }
            match parse_line_index(&lines[i]) {
                Some(v) => {
                    if v > m {
                        m = v;
                    }
                },
                None => {},
            }
            i = i + 1;
        }
        proof {
            assert(ls.take(n as int) =~= ls);
        }
        m
    }

    /// The index the next added record receives: one past the greatest
    /// index present.
    pub fn find_next_index(&self) -> (r: usize)
        requires
            max_index_of(self@) < usize::MAX as int,
        ensures
            r as int == next_index_of(self@),
    {
        let m = self.max_list_index();
        m + 1
    }

    /// Appends the record line `<next index>. <message>` to the content and
    /// returns the assigned index.
    pub fn append_to_list(&mut self, message: &Vec<u8>) -> (idx: usize)
        requires
            max_index_of(old(self)@) < usize::MAX as int,
        ensures
            idx as int == next_index_of(old(self)@),
            final(self)@ == append_content(old(self)@, idx, message@),
    {
        let idx = self.find_next_index();
        let digits = fmt_usize(idx);
        push_seq(&mut self.content, &digits);
        self.content.push(46);
        self.content.push(32);
        push_seq(&mut self.content, message);
        self.content.push(10);
        proof {
            assert(self.content@ =~= append_content(old(self)@, idx, message@));
        }
        idx
    }

    /// Drops every line whose index is `index` and rewrites the rest
    /// unchanged, in order.  When no line matches, the content is left
    /// untouched and the miss is reported.
    pub fn remove_from_list(&mut self, index: usize) -> (r: Result<(), StoreError>)
        ensures
            r is Ok <==> has_index(split_lines(old(self)@), index),
            r is Ok ==> final(self)@ == remove_content(old(self)@, index),
            r is Err ==> final(self)@ == old(self)@ && r == Err::<(), StoreError>(
                StoreError::NotFound,
            ),
    {
        let lines = lines_of(&self.content);
        let ghost ls = split_lines(self.content@);
        let n = lines.len();
        let mut out: Vec<u8> = Vec::new();
        let mut found = false;
        let mut i: usize = 0;
        proof {
            assert(ls.take(0) =~= Seq::<Seq<u8>>::empty());
        }
        while i < n
            invariant
                i <= n == ls.len(),
                lines@.map_values(|l: Vec<u8>| l@) == ls,
                out@ == remove_lines(ls.take(i as int), index),
                found == exists|k: int| 0 <= k < i && #[trigger] matches_index(ls[k], index),
            decreases n - i,
        {
            proof {
                assert(ls.take(i + 1).drop_last() =~= ls.take(i as int));
                assert(ls.take(i + 1).last() == ls[i as int]);
                assert(lines@[i as int]@ == ls[i as int]);
            }
            let matched = match parse_line_index(&lines[i]) {
                Some(v) => v == index,
                None => false,
            };
            if matched {
                found = true;
                proof {
                    assert(matches_index(ls[i as int], index));
                    assert(out@ =~= remove_lines(ls.take(i + 1), index));
                }
            } else {
                push_seq(&mut out, &lines[i]);
                out.push(10);
                proof {
                    assert(!matches_index(ls[i as int], index));
                    assert(out@ =~= remove_lines(ls.take(i as int), index) + (ls[i as int]
                        + seq![nl()]));
                    assert(out@ =~= remove_lines(ls.take(i + 1), index));
                }
            }
            i = i + 1;
        }
        proof {
            assert(ls.take(n as int) =~= ls);
        }
        if found {
            self.content = out;
            Ok(())
        } else {
            Err(StoreError::NotFound)
        }
    }

    /// Sets the done state of every line whose index is `index`: its text
    /// gains the trailing ` -s` marker, or loses every trailing marker.  All
    /// other lines pass through unchanged.  When no line matches, the
    /// content is left untouched and the miss is reported.
    pub fn mark_as_done(&mut self, index: usize, done: bool) -> (r: Result<(), StoreError>)
        ensures
            r is Ok <==> has_index(split_lines(old(self)@), index),
            r is Ok ==> final(self)@ == mark_content(old(self)@, index, done),
            r is Err ==> final(self)@ == old(self)@ && r == Err::<(), StoreError>(
                StoreError::NotFound,
            ),
    {
        let lines = lines_of(&self.content);
        let ghost ls = split_lines(self.content@);
        let n = lines.len();
        let mut out: Vec<u8> = Vec::new();
        let mut found = false;
        let mut i: usize = 0;
        proof {
            assert(ls.take(0) =~= Seq::<Seq<u8>>::empty());
        }
        while i < n
            invariant
                i <= n == ls.len(),
                lines@.map_values(|l: Vec<u8>| l@) == ls,
                out@ == mark_lines(ls.take(i as int), index, done),
                found == exists|k: int| 0 <= k < i && #[trigger] matches_index(ls[k], index),
            decreases n - i,
        {
            proof {
                assert(ls.take(i + 1).drop_last() =~= ls.take(i as int));
                assert(ls.take(i + 1).last() == ls[i as int]);
                assert(lines@[i as int]@ == ls[i as int]);
            }
            let ghost pre = out@;
            let line = &lines[i];
            let mut matched = false;
            match find_byte_vec(line, 46) {
                None => {},
                Some(d) => {
                    proof {
                        crate::bytes::lemma_find_byte(line@, 46);
                    }
                    let head = subvec(line, 0, d);
                    let tok = trim_vec(&head);
                    proof {
                        assert(head@ =~= line@.take(d as int));
                    }
                    match parse_index_token(&tok) {
                        Some(v) => {
                            if v == index {
                                matched = true;
                                let digits = fmt_usize(index);
                                let line_len = line.len();
                                proof {
                                    assert((d as int) < line@.len());
                                }
                                let rest = subvec(line, d + 1, line_len);
                                proof {
                                    assert(rest@ =~= line@.skip(d as int + 1));
                                }
                                let t = trim_start_vec(&rest);
                                let mut t2 = t;
                                if done {
                                    if !ends_with_done(&t2) {
                                        t2.push(32);
                                        t2.push(45);
                                        t2.push(115);
                                        proof {
                                            assert(t2@ =~= trim_start_spec_of_rest(line@, d as int)
                                                + done_marker());
                                        }
                                    }
                                } else {
                                    while ends_with_done(&t2)
                                        invariant
                                            strip_done(t2@) == strip_done(
                                                trim_start_spec_of_rest(line@, d as int),
                                            ),
                                        decreases t2@.len(),
                                    {
                                        let ghost tpre = t2@;
                                        let m = t2.len();
                                        t2.truncate(m - 3);
                                        proof {
                                            assert(t2@ =~= tpre.take(tpre.len() - 3));
                                            assert(strip_done(tpre) == strip_done(t2@));
                                        }
                                    }
                                    proof {
                                        assert(strip_done(t2@) == t2@);
                                    }
                                }
                                proof {
                                    assert(t2@ == set_done_text(
                                        trim_start_spec_of_rest(line@, d as int),
                                        done,
                                    ));
                                    assert(matches_index(ls[i as int], index));
                                    assert(mark_line(ls[i as int], index, done)
                                        == dec_digits_of(index) + seq![46u8, 32u8] + t2@);
                                }
                                push_seq(&mut out, &digits);
                                out.push(46);
                                out.push(32);
                                push_seq(&mut out, &t2);
                                out.push(10);
                                proof {
                                    assert(out@ =~= pre + mark_line(ls[i as int], index, done)
                                        + seq![nl()]);
                                    assert(out@ =~= mark_lines(ls.take(i + 1), index, done));
                                }
                            }
                        },
                        None => {},
                    }
                },
            }
            if !matched {
                proof {
                    assert(!matches_index(ls[i as int], index));
                    assert(mark_line(ls[i as int], index, done) == ls[i as int]);
                }
                push_seq(&mut out, &lines[i]);
                out.push(10);
                proof {
                    assert(out@ =~= pre + (ls[i as int] + seq![nl()]));
                    assert(out@ =~= mark_lines(ls.take(i + 1), index, done));
                }
            }
            if matched {
                found = true;
            }
            i = i + 1;
        }
        proof {
            assert(ls.take(n as int) =~= ls);
        }
        if found {
            self.content = out;
            Ok(())
        } else {
            Err(StoreError::NotFound)
        }
    }

    /// Renders the list for display: each line with a leading token and a
    /// space becomes `<token> <text>`, struck through between terminal
    /// escapes when the text carries the done marker; lines without a space
    /// are dropped.
    pub fn parse_list_content(&self) -> (r: Vec<u8>)
        ensures
            r@ == render_content(self@),
    {
        let lines = lines_of(&self.content);
        let ghost ls = split_lines(self.content@);
        let n = lines.len();
        let mut out: Vec<u8> = Vec::new();
        let mut i: usize = 0;
        proof {
            assert(ls.take(0) =~= Seq::<Seq<u8>>::empty());
        }
        while i < n
            invariant
                i <= n == ls.len(),
                lines@.map_values(|l: Vec<u8>| l@) == ls,
                out@ == render_lines(ls.take(i as int)),
            decreases n - i,
        {
            proof {
                assert(ls.take(i + 1).drop_last() =~= ls.take(i as int));
                assert(ls.take(i + 1).last() == ls[i as int]);
                assert(lines@[i as int]@ == ls[i as int]);
            }
            let ghost pre = out@;
            let line = &lines[i];
            match find_byte_vec(line, 32) {
                None => {
                    proof {
                        assert(render_line(ls[i as int]) is None);
                        assert(out@ =~= render_lines(ls.take(i + 1)));
                    }
                },
                Some(sp) => {
                    proof {
                        crate::bytes::lemma_find_byte(line@, 32);
                    }
                    let num = subvec(line, 0, sp);
                    let line_len = line.len();
                    let rest = subvec(line, sp + 1, line_len);
                    proof {
                        assert(num@ =~= line@.take(sp as int));
                        assert(rest@ =~= line@.skip(sp as int + 1));
                    }
                    if ends_with_done(&rest) {
                        let ghost rest0 = rest@;
                        let mut t2 = rest;
                        while ends_with_done(&t2)
                            invariant
                                strip_done(t2@) == strip_done(rest0),
                            decreases t2@.len(),
                        {
                            let ghost tpre = t2@;
                            let m = t2.len();
                            t2.truncate(m - 3);
                            proof {
                                assert(t2@ =~= tpre.take(tpre.len() - 3));
                                assert(strip_done(tpre) == strip_done(t2@));
                            }
                        }
                        proof {
                            assert(strip_done(t2@) == t2@);
                        }
                        let t = trim_vec(&t2);
                        push_seq(&mut out, &num);
                        out.push(32);
                        out.push(27);
                        out.push(91);
                        out.push(57);
                        out.push(109);
                        push_seq(&mut out, &t);
                        out.push(27);
                        out.push(91);
                        out.push(48);
                        out.push(109);
                        out.push(10);
                        proof {
                            assert(render_line(ls[i as int]) == Some(
                                num@ + seq![32u8] + strike_on() + t@ + strike_off(),
                            ));
                            assert(out@ =~= pre + (num@ + seq![32u8] + strike_on() + t@
                                + strike_off()) + seq![nl()]);
                            assert(out@ =~= render_lines(ls.take(i + 1)));
                        }
                    } else {
                        let t = trim_start_vec(&rest);
                        push_seq(&mut out, &num);
                        out.push(32);
                        push_seq(&mut out, &t);
                        out.push(10);
                        proof {
                            assert(render_line(ls[i as int]) == Some(num@ + seq![32u8] + t@));
                            assert(out@ =~= pre + (num@ + seq![32u8] + t@) + seq![nl()]);
                            assert(out@ =~= render_lines(ls.take(i + 1)));
                        }
                    }
                },
            }
            i = i + 1;
        }
        proof {
            assert(ls.take(n as int) =~= ls);
        }
        out
    }
}

/// The trimmed text after the period at `d` in `l`.
spec fn trim_start_spec_of_rest(l: Seq<u8>, d: int) -> Seq<u8> {
    crate::bytes::trim_start_spec(l.skip(d + 1))
}

/// The canonical digit string of an index.
spec fn dec_digits_of(idx: usize) -> Seq<u8> {
    crate::numerals::dec_digits(idx as nat)
}

} // verus!
