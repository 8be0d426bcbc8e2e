use vstd::prelude::*;

use crate::descriptor::{Descriptor, DescriptorModel};
use crate::printer::{newline_model, Printer, SegmentModel, Style};
use crate::store::EntryModel;
use crate::text::{numeral, push_char, push_numeral};

verus! {

/// `n` stars.
pub open spec fn stars(n: nat) -> Seq<char> {
    Seq::new(n, |i: int| '*')
}

/// ` (` + `t` + `)`.
pub open spec fn parens(t: Seq<char>) -> Seq<char> {
    seq![' ', '('] + t + seq![')']
}

/// The priority as the star count that is shown: 0 to 3.
pub open spec fn star_count(priority: nat) -> nat {
    if priority > 3 {
        3
    } else {
        priority
    }
}

/// What follows a task's text: its id (green), its group where it has one
/// (yellow), and its priority as one to three stars where it is not 0 (bold red).
pub open spec fn suffix(d: DescriptorModel) -> Seq<SegmentModel> {
    seq![(parens(numeral(d.id)), Style::Green)] + match d.group {
        Some(g) => seq![(parens(g), Style::Yellow)],
        None => Seq::<SegmentModel>::empty(),
    } + if d.priority == 0 {
        Seq::<SegmentModel>::empty()
    } else {
        seq![(parens(stars(star_count(d.priority))), Style::BoldRed)]
    }
}

/// Whether two descriptors belong to one block: same priority and group.
pub open spec fn same_block(a: DescriptorModel, b: DescriptorModel) -> bool {
    a.priority == b.priority && a.group == b.group
}

/// The lines of one task, after the task `prev` where there is one: a blank line
/// where the block changes, then the text with its suffix.
pub open spec fn task_lines(prev: Option<DescriptorModel>, e: EntryModel) -> Seq<SegmentModel> {
    (if prev is Some && !same_block(prev->Some_0, e.0) {
        seq![newline_model()]
    } else {
        Seq::<SegmentModel>::empty()
    }) + seq![(e.1, Style::Plain)] + suffix(e.0) + seq![newline_model()]
}

/// The listing of entries given in display order.
pub open spec fn render(s: Seq<EntryModel>) -> Seq<SegmentModel>
    decreases s.len(),
{
    if s.len() == 0 {
        Seq::<SegmentModel>::empty()
    } else {
        render(s.drop_last()) + task_lines(
            if s.len() > 1 {
                Some(s[s.len() - 2].0)
            } else {
                None::<DescriptorModel>
            },
            s.last(),
        )
    }
}

pub open spec fn nothing_text() -> Seq<char> {
    seq!['N', 'o', 't', 'h', 'i', 'n', 'g', '!']
}

/// What `list` shows: the rendering, or a purple "Nothing!" line for no tasks.
pub open spec fn listing(s: Seq<EntryModel>) -> Seq<SegmentModel> {
    if s.len() == 0 {
        seq![(nothing_text(), Style::Purple), newline_model()]
    } else {
        render(s)
    }
}

fn parens_of(t: &str) -> (r: String)
    ensures
        r@ == parens(t@),
{
    let mut s = String::new();
    push_char(&mut s, ' ');
    push_char(&mut s, '(');
    s.append(t);
    push_char(&mut s, ')');
    assert(s@ =~= parens(t@));
    s
}

impl Descriptor {
    /// Appends the styled suffix that follows a task's text in a listing.
    pub fn describe(&self, out: Printer) -> (r: Printer)
        ensures
            r@ == out@ + suffix(self@),
    {
        let ghost start = out@;
        let mut id = String::new();
        push_numeral(&mut id, self.id);
        assert(id@ =~= numeral(self.id as nat));
        let mut out = out.green(parens_of(id.as_str()));
        let ghost after_id = out@;
        match &self.group {
            Some(g) => {
                out = out.yellow(parens_of(g.as_str()));
            },
            None => {},
        }
        let ghost after_group = out@;
        if self.priority != 0 {
            let n: usize = if self.priority > 3 {
                3
            } else {
                self.priority
            };
            let mut st = String::new();
            let mut k: usize = 0;
            while k < n
                invariant
                    k <= n,
                    st@ == stars(k as nat),
                decreases n - k,
            {
                push_char(&mut st, '*');
                assert(st@ =~= stars((k + 1) as nat));
                k = k + 1;
            }
            out = out.bred(parens_of(st.as_str()));
        }
        assert(out@ =~= start + suffix(self@));
        out
    }
}

} // verus!
