//! Splitting content into lines at newline bytes, joining lines back, and
//! the lemmas that relate the two.

use vstd::prelude::*;

use crate::bytes::find_byte;
use crate::bytes::lemma_find_byte;
use crate::bytes::lemma_find_byte_at;

verus! {

/// Newline byte.
pub open spec fn nl() -> u8 {
    10
}

/// A line as a `\r\n` terminator leaves it: one trailing carriage
/// return, if present, belongs to the terminator and is removed.
pub open spec fn chomp_cr(l: Seq<u8>) -> Seq<u8> {
    if l.len() > 0 && l.last() == 13 {
        l.drop_last()
    } else {
        l
    }
}

/// `l` does not end with a carriage return.
pub open spec fn no_cr_tail(l: Seq<u8>) -> bool {
    l.len() == 0 || l.last() != 13
}

/// The lines of `s`, split at newline or carriage-return-newline
/// terminators.  A trailing terminator does not produce an empty final
/// line; a final unterminated line is kept as it stands.
pub open spec fn split_lines(s: Seq<u8>) -> Seq<Seq<u8>>
    decreases s.len(),
    via split_lines_decreases
{
    if s.len() == 0 {
        Seq::empty()
    } else {
        match find_byte(s, nl()) {
            Some(i) => seq![chomp_cr(s.take(i))] + split_lines(s.skip(i + 1)),
            None => seq![s],
        }
    }
}

#[via_fn]
proof fn split_lines_decreases(s: Seq<u8>) {
    if s.len() > 0 {
        lemma_find_byte(s, nl());
    }
}

/// No line produced by `split_lines` contains a newline.
pub proof fn lemma_split_lines_no_nl(s: Seq<u8>)
    ensures
        forall|k: int, j: int|
            0 <= k < split_lines(s).len() && 0 <= j < split_lines(s)[k].len()
                ==> split_lines(s)[k][j] != nl(),
    decreases s.len(),
{
    if s.len() > 0 {
        lemma_find_byte(s, nl());
        match find_byte(s, nl()) {
            Some(i) => {
                lemma_split_lines_no_nl(s.skip(i + 1));
                let ls = split_lines(s);
                let rest = split_lines(s.skip(i + 1));
                assert forall|k: int, j: int|
                    0 <= k < ls.len() && 0 <= j < ls[k].len() implies ls[k][j] != nl() by {
                    if k == 0 {
                        assert(ls[0] == chomp_cr(s.take(i)));
                        assert(ls[0][j] == s.take(i)[j]);
                        assert(s.take(i)[j] == s[j]);
                    } else {
                        assert(ls[k] == rest[k - 1]);
                    }
                }
            },
            None => {
                assert(split_lines(s) == seq![s]);
            },
        }
    }
}

/// Splitting distributes over concatenation at a newline boundary.
pub proof fn lemma_split_lines_concat(a: Seq<u8>, b: Seq<u8>)
    requires
        a.len() > 0,
        a.last() == nl(),
    ensures
        split_lines(a + b) == split_lines(a) + split_lines(b),
    decreases a.len(),
{
    lemma_find_byte(a, nl());
    let i = match find_byte(a, nl()) {
        Some(i) => i,
        None => 0,
    };
    assert(find_byte(a, nl()) == Some(i)) by {
        if find_byte(a, nl()) is None {
            assert(a[a.len() - 1] != nl());
        }
    }
    let c = a + b;
    assert(c.len() > 0);
    assert(c[i] == a[i] && c[i] == nl());
    assert(forall|j: int| 0 <= j < i ==> c[j] == a[j] && c[j] != nl());
    lemma_find_byte_at(c, nl(), i);
    assert(c.take(i) =~= a.take(i));
    assert(c.skip(i + 1) =~= a.skip(i + 1) + b);
    if i == a.len() - 1 {
        assert(a.skip(i + 1) =~= Seq::<u8>::empty());
        assert(a.skip(i + 1) + b =~= b);
        assert(split_lines(a) =~= seq![chomp_cr(a.take(i))] + split_lines(a.skip(i + 1)));
        assert(split_lines(a.skip(i + 1)) =~= Seq::<Seq<u8>>::empty());
        assert(split_lines(c) =~= split_lines(a) + split_lines(b));
    } else {
        let a2 = a.skip(i + 1);
        assert(a2.len() > 0);
        assert(a2.last() == a.last());
        lemma_split_lines_concat(a2, b);
        assert(split_lines(c) == seq![chomp_cr(c.take(i))] + split_lines(a2 + b));
        assert(split_lines(c) =~= split_lines(a) + split_lines(b));
    }
}

/// A single newline-terminated, newline-free line splits to just itself,
/// less a trailing carriage return.
pub proof fn lemma_split_single(l: Seq<u8>)
    requires
        forall|j: int| 0 <= j < l.len() ==> l[j] != nl(),
    ensures
        split_lines(l + seq![nl()]) == seq![chomp_cr(l)],
{
    let s = l + seq![nl()];
    assert(s[l.len() as int] == nl());
    assert(forall|j: int| 0 <= j < l.len() ==> s[j] == l[j] && s[j] != nl());
    lemma_find_byte_at(s, nl(), l.len() as int);
    assert(s.take(l.len() as int) =~= l);
    let tail = s.skip(l.len() as int + 1);
    assert(tail =~= Seq::<u8>::empty());
    assert(split_lines(tail) =~= Seq::<Seq<u8>>::empty());
    assert(s.len() > 0);
    assert(split_lines(s) == seq![chomp_cr(s.take(l.len() as int))] + split_lines(tail));
    assert(split_lines(s) =~= seq![chomp_cr(l)]);
}

/// Splits `v` into its lines.
pub fn lines_of(v: &Vec<u8>) -> (r: Vec<Vec<u8>>)
    ensures
        r@.map_values(|l: Vec<u8>| l@) == split_lines(v@),
{
    let n = v.len();
    let mut out: Vec<Vec<u8>> = Vec::new();
    let mut cur: Vec<u8> = Vec::new();
    let mut i: usize = 0;
    proof {
        assert(v@.skip(0) =~= v@);
        assert(Seq::<u8>::empty() + v@ =~= v@);
        assert(out@.map_values(|l: Vec<u8>| l@) =~= Seq::<Seq<u8>>::empty());
    }
    while i < n
        invariant
            i <= n == v@.len(),
            forall|j: int| 0 <= j < cur@.len() ==> cur@[j] != nl(),
            split_lines(v@) == out@.map_values(|l: Vec<u8>| l@) + split_lines(
                cur@ + v@.skip(i as int),
            ),
        decreases n - i,
    {
        let ghost pre_out = out@;
        let ghost pre_cur = cur@;
        let b = v[i];
        if b == 10 {
            proof {
                let s = pre_cur + v@.skip(i as int);
                assert(s[pre_cur.len() as int] == nl());
                assert(forall|j: int| 0 <= j < pre_cur.len() ==> s[j] == pre_cur[j] && s[j] != nl());
                lemma_find_byte_at(s, nl(), pre_cur.len() as int);
                assert(s.take(pre_cur.len() as int) =~= pre_cur);
                assert(s.skip(pre_cur.len() as int + 1) =~= Seq::<u8>::empty() + v@.skip(i + 1));
                assert(s.len() > 0);
                assert(split_lines(s) == seq![chomp_cr(pre_cur)] + split_lines(
                    Seq::<u8>::empty() + v@.skip(i + 1),
                ));
            }
            if cur.len() > 0 && cur[cur.len() - 1] == 13 {
                let _ = cur.pop();
            }
            proof {
                assert(cur@ == chomp_cr(pre_cur));
            }
            out.push(cur);
            cur = Vec::new();
            proof {
                assert(out@.map_values(|l: Vec<u8>| l@) =~= pre_out.map_values(|l: Vec<u8>| l@)
                    + seq![chomp_cr(pre_cur)]);
                assert(split_lines(v@) == out@.map_values(|l: Vec<u8>| l@) + split_lines(
                    cur@ + v@.skip(i + 1),
                ));
            }
        } else {
            cur.push(b);
            proof {
                assert(cur@ + v@.skip(i + 1) =~= pre_cur + v@.skip(i as int));
            }
        }
        i = i + 1;
    }
    proof {
        assert(cur@ + v@.skip(n as int) =~= cur@);
        if cur@.len() > 0 {
            lemma_find_byte(cur@, nl());
            assert(find_byte(cur@, nl()) is None) by {
                match find_byte(cur@, nl()) {
                    Some(k) => {
                        assert(cur@[k] != nl());
                    },
                    None => {},
                }
            }
            assert(split_lines(cur@) == seq![cur@]);
        }
    }
    if cur.len() > 0 {
        let ghost pre_out = out@;
        let ghost pre_cur = cur@;
        out.push(cur);
        proof {
            assert(out@.map_values(|l: Vec<u8>| l@) =~= pre_out.map_values(|l: Vec<u8>| l@)
                + seq![pre_cur]);
            assert(out@.map_values(|l: Vec<u8>| l@) =~= split_lines(v@));
        }
    } else {
        proof {
            assert(split_lines(cur@) =~= Seq::<Seq<u8>>::empty());
            assert(out@.map_values(|l: Vec<u8>| l@) =~= split_lines(v@));
        }
    }
    out
}

} // verus!
