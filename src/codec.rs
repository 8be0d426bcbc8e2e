use vstd::prelude::*;

use crate::descriptor::{group_view, Descriptor, DescriptorModel};
use crate::error::TodoError;
use crate::text::{
    is_digit, lemma_numeral, number_value, numeral, numeral_ok, parse_decimal, push_char,
    push_numeral, sign_free,
};

verus! {

/// The presence flag and the group: `0` alone, or `1` followed by the group.
pub open spec fn group_code(g: Option<Seq<char>>) -> Seq<char> {
    match g {
        None => seq!['0'],
        Some(t) => seq!['1'] + t,
    }
}

/// The text form of a descriptor: `<priority>-<id>-<presence><group>`.
pub open spec fn encode_spec(d: DescriptorModel) -> Seq<char> {
    numeral(d.priority) + seq!['-'] + numeral(d.id) + seq!['-'] + group_code(d.group)
}

/// The index of the first `-` of `s`, or its length where it has none.
pub open spec fn dash_index(s: Seq<char>) -> nat
    decreases s.len(),
{
    if s.len() == 0 || s[0] == '-' {
        0
    } else {
        1 + dash_index(s.drop_first())
    }
}

/// The descriptor that a text denotes: split on the first two `-` into priority,
/// id and a remainder; the remainder is `0` (no group) or `1` followed by a
/// non-empty group. `None` where the text is malformed.
pub open spec fn decode_spec(s: Seq<char>) -> Option<DescriptorModel> {
    let i = dash_index(s) as int;
    let head = s.take(i);
    let rest = s.skip(i + 1);
    let j = dash_index(rest) as int;
    let mid = rest.take(j);
    let tail = rest.skip(j + 1);
    if i >= s.len() || j >= rest.len() || !numeral_ok(head) || !numeral_ok(mid) {
        None
    } else if tail == seq!['0'] {
        Some(DescriptorModel { priority: number_value(head), id: number_value(mid), group: None })
    } else if tail.len() > 1 && tail[0] == '1' {
        Some(
            DescriptorModel {
                priority: number_value(head),
                id: number_value(mid),
                group: Some(tail.skip(1)),
            },
        )
    } else {
        None
    }
}

/// A descriptor that the codec can carry: fields that fit in `usize`, and a
/// group, where present, that is not empty.
pub open spec fn encodable(d: DescriptorModel) -> bool {
    &&& d.priority <= usize::MAX
    &&& d.id <= usize::MAX
    &&& match d.group {
        None => true,
        Some(g) => g.len() > 0,
    }
}

proof fn lemma_dash_index_skip(s: Seq<char>, i: int)
    requires
        0 <= i <= s.len(),
        forall|k: int| 0 <= k < i ==> s[k] != '-',
    ensures
        dash_index(s) == i + dash_index(s.skip(i)),
    decreases i,
{
    if i > 0 {
        lemma_dash_index_skip(s.drop_first(), i - 1);
        assert(s.drop_first().skip(i - 1) =~= s.skip(i));
    } else {
        assert(s.skip(0) =~= s);
    }
}

proof fn lemma_dash_after_digits(a: Seq<char>, b: Seq<char>)
    requires
        forall|k: int| 0 <= k < a.len() ==> is_digit(#[trigger] a[k]),
    ensures
        dash_index(a + seq!['-'] + b) == a.len(),
{
    let s = a + seq!['-'] + b;
    assert forall|k: int| 0 <= k < a.len() implies s[k] != '-' by {
        assert(s[k] == a[k]);
        assert(is_digit(a[k]));
    }
    lemma_dash_index_skip(s, a.len() as int);
    assert(s.skip(a.len() as int)[0] == '-');
}

/// Decoding the text form of a descriptor gives the descriptor back.
pub proof fn lemma_round_trip(d: DescriptorModel)
    requires
        encodable(d),
    ensures
        decode_spec(encode_spec(d)) == Some(d),
{
    lemma_numeral(d.priority);
    lemma_numeral(d.id);
    let p = numeral(d.priority);
    let q = numeral(d.id);
    assert(!is_digit('+'));
    assert(sign_free(p) == p);
    assert(sign_free(q) == q);
    let g = group_code(d.group);
    let s = encode_spec(d);
    let rest0 = q + seq!['-'] + g;
    assert(s =~= p + seq!['-'] + rest0);
    lemma_dash_after_digits(p, rest0);
    lemma_dash_after_digits(q, g);
    assert(s.take(p.len() as int) =~= p);
    assert(s.skip(p.len() as int + 1) =~= rest0);
    assert(rest0.take(q.len() as int) =~= q);
    assert(rest0.skip(q.len() as int + 1) =~= g);
    match d.group {
        None => {},
        Some(t) => {
            assert(g.skip(1) =~= t);
            assert(g != seq!['0']);
        },
    }
}

/// The index of the first `-` of `s`, or its length where it has none.
fn find_dash(s: &str) -> (r: usize)
    ensures
        r == dash_index(s@),
        r <= s@.len(),
{
    let n = s.unicode_len();
    let mut i: usize = 0;
    while i < n
        invariant
            n == s@.len(),
            i <= n,
            forall|k: int| 0 <= k < i ==> s@[k] != '-',
        ensures
            i <= n,
            forall|k: int| 0 <= k < i ==> s@[k] != '-',
            i == n || s@[i as int] == '-',
        decreases n - i,
    {
        if s.get_char(i) == '-' {
            break;
        }
        i = i + 1;
    }
    proof {
        lemma_dash_index_skip(s@, i as int);
        if i < n {
            assert(s@.skip(i as int)[0] == '-');
        }
    }
    i
}

impl Descriptor {
    /// The text form of this descriptor: `<priority>-<id>-<presence><group>`.
    pub fn encode(&self) -> (r: String)
        ensures
            r@ == encode_spec(self@),
    {
        let mut out = String::new();
        push_numeral(&mut out, self.priority);
        push_char(&mut out, '-');
        push_numeral(&mut out, self.id);
        push_char(&mut out, '-');
        match &self.group {
            None => {
                push_char(&mut out, '0');
            },
            Some(g) => {
                push_char(&mut out, '1');
                out.append(g.as_str());
            },
        }
        assert(out@ =~= encode_spec(self@));
        out
    }

    /// Reads the text form of a descriptor; `MalformedDescriptor` where `decode_spec`
    /// finds none.
    pub fn decode(s: &str) -> (r: Result<Descriptor, TodoError>)
        ensures
            match decode_spec(s@) {
                Some(m) => r is Ok && r->Ok_0@ == m,
                None => r == Err::<Descriptor, TodoError>(TodoError::MalformedDescriptor),
            },
    {
        let n = s.unicode_len();
        let i = find_dash(s);
        if i >= n {
            return Err(TodoError::MalformedDescriptor);
        }
        let head = s.substring_char(0, i);
        let rest = s.substring_char(i + 1, n);
        let m = rest.unicode_len();
        let j = find_dash(rest);
        if j >= m {
            return Err(TodoError::MalformedDescriptor);
        }
        let mid = rest.substring_char(0, j);
        let tail = rest.substring_char(j + 1, m);
        assert(head@ =~= s@.take(i as int));
        assert(rest@ =~= s@.skip(i + 1));
        assert(mid@ =~= rest@.take(j as int));
        assert(tail@ =~= rest@.skip(j + 1));
        let priority = match parse_decimal(head) {
            Some(v) => v,
            None => {
                return Err(TodoError::MalformedDescriptor);
            },
        };
        let id = match parse_decimal(mid) {
            Some(v) => v,
            None => {
                return Err(TodoError::MalformedDescriptor);
            },
        };
        let t = tail.unicode_len();
        if t == 0 {
            return Err(TodoError::MalformedDescriptor);
        }
        let flag = tail.get_char(0);
        if flag == '0' && t == 1 {
            assert(tail@ =~= seq!['0']);
            Ok(Descriptor { priority, id, group: None })
        } else if flag == '1' && t > 1 {
            assert(tail@ != seq!['0']);
            let g = String::from_str(tail.substring_char(1, t));
            assert(g@ =~= tail@.skip(1));
            Ok(Descriptor { priority, id, group: Some(g) })
        } else {
            assert(tail@ != seq!['0']);
            Err(TodoError::MalformedDescriptor)
        }
    }
}

} // verus!
