use vstd::prelude::*;

use crate::text::{is_space, number_value, numeral_ok, parse_decimal};

verus! {

/// The pieces of `s` between commas (one piece where it has no comma).
pub open spec fn split_commas(s: Seq<char>) -> Seq<Seq<char>>
    decreases s.len(),
{
    if s.len() == 0 {
        seq![Seq::<char>::empty()]
    } else {
        let r = split_commas(s.drop_last());
        if s.last() == ',' {
            r.push(Seq::<char>::empty())
        } else {
            r.update(r.len() - 1, r.last().push(s.last()))
        }
    }
}

pub open spec fn trim_start(t: Seq<char>) -> Seq<char>
    decreases t.len(),
{
    if t.len() > 0 && is_space(t[0]) {
        trim_start(t.drop_first())
    } else {
        t
    }
}

pub open spec fn trim_end(t: Seq<char>) -> Seq<char>
    decreases t.len(),
{
    if t.len() > 0 && is_space(t.last()) {
        trim_end(t.drop_last())
    } else {
        t
    }
}

/// `t` without leading and trailing whitespace.
pub open spec fn trim(t: Seq<char>) -> Seq<char> {
    trim_end(trim_start(t))
}

/// The ids that the pieces denote, in order; pieces that are no number are left out.
pub open spec fn parsed_ids(pieces: Seq<Seq<char>>) -> Seq<usize> {
    pieces.filter(|t: Seq<char>| numeral_ok(trim(t))).map_values(
        |t: Seq<char>| number_value(trim(t)) as usize,
    )
}

/// The pieces, trimmed, that are no number, in order.
pub open spec fn bad_pieces(pieces: Seq<Seq<char>>) -> Seq<Seq<char>> {
    pieces.filter(|t: Seq<char>| !numeral_ok(trim(t))).map_values(|t: Seq<char>| trim(t))
}

proof fn lemma_trim_start_skip(t: Seq<char>, a: int)
    requires
        0 <= a <= t.len(),
        forall|k: int| 0 <= k < a ==> is_space(#[trigger] t[k]),
    ensures
        trim_start(t) == trim_start(t.skip(a)),
    decreases a,
{
    if a > 0 {
        lemma_trim_start_skip(t.drop_first(), a - 1);
        assert(t.drop_first().skip(a - 1) =~= t.skip(a));
    } else {
        assert(t.skip(0) =~= t);
    }
}

proof fn lemma_trim_end_take(t: Seq<char>, b: int)
    requires
        0 <= b <= t.len(),
        forall|k: int| b <= k < t.len() ==> is_space(#[trigger] t[k]),
    ensures
        trim_end(t) == trim_end(t.take(b)),
    decreases t.len() - b,
{
    if b < t.len() {
        lemma_trim_end_take(t.drop_last(), b);
        assert(t.drop_last().take(b) =~= t.take(b));
    } else {
        assert(t.take(b) =~= t);
    }
}

/// `t` without leading and trailing whitespace.
pub fn trim_str(t: &str) -> (r: &str)
    ensures
        r@ == trim(t@),
{
    let n = t.unicode_len();
    let mut a: usize = 0;
    while a < n && crate::text::space_char(t.get_char(a))
        invariant
            n == t@.len(),
            a <= n,
            forall|k: int| 0 <= k < a ==> is_space(#[trigger] t@[k]),
        decreases n - a,
    {
        a = a + 1;
    }
    let u = t.substring_char(a, n);
    proof {
        lemma_trim_start_skip(t@, a as int);
        assert(u@ =~= t@.skip(a as int));
        if a < n {
            assert(u@[0] == t@[a as int]);
        }
    }
    let m = u.unicode_len();
    let mut b: usize = m;
    while b > 0 && crate::text::space_char(u.get_char(b - 1))
        invariant
            m == u@.len(),
            b <= m,
            forall|k: int| b <= k < m ==> is_space(#[trigger] u@[k]),
        decreases b,
    {
        b = b - 1;
    }
    let r = u.substring_char(0, b);
    proof {
        lemma_trim_end_take(u@, b as int);
        assert(r@ =~= u@.take(b as int));
        if b > 0 {
            assert(r@.last() == u@[b - 1]);
        }
    }
    r
}

/// Reads one comma-separated piece: its trimmed text as a number, or that text.
fn parse_piece(t: &str) -> (r: Result<usize, String>)
    ensures
        numeral_ok(trim(t@)) ==> r == Ok::<usize, String>(number_value(trim(t@)) as usize),
        !numeral_ok(trim(t@)) ==> r is Err && r->Err_0@ == trim(t@),
{
    let u = trim_str(t);
    match parse_decimal(u) {
        Some(v) => Ok(v),
        None => Err(String::from_str(u)),
    }
}

/// Splits a line of requested ids on commas, trims each piece and reads it as a
/// number. Gives the ids read, in order, and the trimmed pieces that were no number.
pub fn parse_ids(line: &str) -> (r: (Vec<usize>, Vec<String>))
    ensures
        r.0@ == parsed_ids(split_commas(line@)),
        r.1@.map_values(|x: String| x@) == bad_pieces(split_commas(line@)),
{
    let n = line.unicode_len();
    let mut ids: Vec<usize> = Vec::new();
    let mut bad: Vec<String> = Vec::new();
    let ghost mut done: Seq<Seq<char>> = Seq::empty();
    let mut start: usize = 0;
    let mut i: usize = 0;
    proof {
        reveal(Seq::filter);
        assert(line@.take(0) =~= Seq::<char>::empty());
        assert(line@.subrange(0, 0) =~= Seq::<char>::empty());
        assert(split_commas(Seq::<char>::empty()) == done.push(Seq::<char>::empty()));
        assert(ids@ =~= parsed_ids(done));
        assert(bad@.map_values(|x: String| x@) =~= bad_pieces(done));
    }
    loop
        invariant_except_break
            start <= i <= n,
            split_commas(line@.take(i as int)) == done.push(line@.subrange(start as int, i as int)),
        invariant
            n == line@.len(),
            ids@ == parsed_ids(done),
            bad@.map_values(|x: String| x@) == bad_pieces(done),
        ensures
            split_commas(line@) == done,
        decreases n - i,
    {
        let at_end = i == n;
        if at_end || line.get_char(i) == ',' {
            let piece = line.substring_char(start, i);
            let ghost pv = piece@;
            let ghost old_bad = bad@.map_values(|x: String| x@);
            match parse_piece(piece) {
                Ok(v) => {
                    ids.push(v);
                },
                Err(e) => {
                    bad.push(e);
                },
            }
            proof {
                let f = |t: Seq<char>| numeral_ok(trim(t));
                let g = |t: Seq<char>| !numeral_ok(trim(t));
                let fv = |t: Seq<char>| number_value(trim(t)) as usize;
                let gv = |t: Seq<char>| trim(t);
                done.lemma_filter_push(pv, f);
                done.lemma_filter_push(pv, g);
                assert(done.filter(f).push(pv).map_values(fv) =~= done.filter(f).map_values(
                    fv,
                ).push(fv(pv)));
                assert(done.filter(g).push(pv).map_values(gv) =~= done.filter(g).map_values(
                    gv,
                ).push(gv(pv)));
                assert(ids@ =~= parsed_ids(done.push(pv)));
                if !numeral_ok(trim(pv)) {
                    assert(bad@.map_values(|x: String| x@) =~= old_bad.push(gv(pv)));
                } else {
                    assert(bad@.map_values(|x: String| x@) =~= old_bad);
                }
                assert(bad@.map_values(|x: String| x@) =~= bad_pieces(done.push(pv)));
            }
            if at_end {
                proof {
                    assert(line@.take(n as int) =~= line@);
                    done = done.push(pv);
                }
                break;
            }
            proof {
                let s1 = line@.take(i + 1);
                assert(s1.drop_last() =~= line@.take(i as int));
                done = done.push(pv);
                assert(line@.subrange(i + 1, i + 1) =~= Seq::<char>::empty());
            }
            start = i + 1;
        } else {
            proof {
                let s1 = line@.take(i + 1);
                assert(s1.drop_last() =~= line@.take(i as int));
                assert(line@.subrange(start as int, i + 1) =~= line@.subrange(
                    start as int,
                    i as int,
                ).push(line@[i as int]));
            }
        }
        i = i + 1;
    }
    (ids, bad)
}

} // verus!
