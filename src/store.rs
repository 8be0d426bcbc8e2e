use std::cmp::Ordering;
use vstd::prelude::*;

use crate::descriptor::{
    copy_group, group_view, lemma_less_strict_total, less, ranks_before, Descriptor,
    DescriptorModel,
};
use crate::descriptor::group_cmp;
use crate::error::TodoError;
use crate::format::{listing, nothing_text, render, same_block, task_lines};
use crate::printer::Printer;
use crate::text::{all_space, blank};

verus! {

/// A stored task as a mathematical value: its descriptor and its text.
pub type EntryModel = (DescriptorModel, Seq<char>);

pub open spec fn entry_view(e: (Descriptor, String)) -> EntryModel {
    (e.0@, e.1@)
}

pub open spec fn entries_view(v: Seq<(Descriptor, String)>) -> Seq<EntryModel> {
    v.map_values(|e: (Descriptor, String)| entry_view(e))
}

/// Whether `id` is among the requested ids.
pub open spec fn requested(ids: Seq<usize>, id: nat) -> bool {
    exists|k: int| 0 <= k < ids.len() && ids[k] as nat == id
}

/// The entries whose id was not requested, in their order.
pub open spec fn kept(s: Seq<EntryModel>, ids: Seq<usize>) -> Seq<EntryModel> {
    s.filter(|e: EntryModel| !requested(ids, e.0.id))
}

/// Id and text of each entry (of `s`, given in display order) whose id was
/// requested, in the store's ascending order: the reverse of display order.
pub open spec fn removed(s: Seq<EntryModel>, ids: Seq<usize>) -> Seq<(nat, Seq<char>)> {
    s.filter(|e: EntryModel| requested(ids, e.0.id)).map_values(
        |e: EntryModel| (e.0.id, e.1),
    ).reverse()
}

/// The requested ids that no task of a well-formed store of `n` tasks carries,
/// each once, in the order of their first request.
pub open spec fn missing(ids: Seq<usize>, n: nat) -> Seq<usize>
    decreases ids.len(),
{
    if ids.len() == 0 {
        Seq::<usize>::empty()
    } else {
        let r = missing(ids.drop_last(), n);
        let k = ids.last();
        if !(1 <= k <= n) && !requested(r, k as nat) {
            r.push(k)
        } else {
            r
        }
    }
}

pub open spec fn records_view(v: Seq<(usize, String)>) -> Seq<(nat, Seq<char>)> {
    v.map_values(|x: (usize, String)| (x.0 as nat, x.1@))
}

/// What a deletion did: the tasks it removed (id and text, in the store's
/// ascending order) and the requested ids that matched no task (each once).
#[derive(Debug)]
pub struct DeleteReport {
    pub removed: Vec<(usize, String)>,
    pub missing: Vec<usize>,
}

fn requested_exec(ids: &Vec<usize>, id: usize) -> (r: bool)
    ensures
        r == requested(ids@, id as nat),
{
    let n = ids.len();
    let mut j: usize = 0;
    while j < n
        invariant
            n == ids@.len(),
            j <= n,
            forall|k: int| 0 <= k < j ==> ids@[k] != id,
        decreases n - j,
    {
        if ids[j] == id {
            return true;
        }
        j = j + 1;
    }
    false
}

/// Entries listed in display order: each ranks before every later one.
pub open spec fn sorted(s: Seq<EntryModel>) -> bool {
    forall|i: int, j: int| 0 <= i < j < s.len() ==> ranks_before(#[trigger] s[i].0, #[trigger] s[j].0)
}

/// The ids are `1..=n` in display order: the task shown first has id 1.
pub open spec fn dense(s: Seq<EntryModel>) -> bool {
    forall|i: int| 0 <= i < s.len() ==> #[trigger] s[i].0.id == i + 1
}

pub open spec fn well_formed(s: Seq<EntryModel>) -> bool {
    sorted(s) && dense(s)
}

pub open spec fn with_id(d: DescriptorModel, id: nat) -> DescriptorModel {
    DescriptorModel { priority: d.priority, id, group: d.group }
}

/// Every entry gets as id its rank in display order; priorities, groups, texts
/// and order stay.
pub open spec fn reindexed(s: Seq<EntryModel>) -> Seq<EntryModel> {
    Seq::new(s.len(), |i: int| (with_id(s[i].0, (i + 1) as nat), s[i].1))
}

/// Reindexing a sorted sequence gives a well-formed one.
pub proof fn lemma_reindexed_well_formed(s: Seq<EntryModel>)
    requires
        sorted(s),
    ensures
        well_formed(reindexed(s)),
{
    let r = reindexed(s);
    assert forall|i: int, j: int| 0 <= i < j < r.len() implies ranks_before(
        #[trigger] r[i].0,
        #[trigger] r[j].0,
    ) by {
        assert(ranks_before(s[i].0, s[j].0));
    }
}

/// A sorted sequence with `e` put at `p`, where the order puts it, stays sorted.
proof fn lemma_insert_sorted(s: Seq<EntryModel>, p: int, e: EntryModel)
    requires
        sorted(s),
        0 <= p <= s.len(),
        forall|k: int| 0 <= k < p ==> ranks_before(#[trigger] s[k].0, e.0),
        forall|k: int| p <= k < s.len() ==> ranks_before(e.0, #[trigger] s[k].0),
    ensures
        sorted(s.insert(p, e)),
{
    s.insert_ensures(p, e);
    let t = s.insert(p, e);
    assert forall|i: int, j: int| 0 <= i < j < t.len() implies ranks_before(
        #[trigger] t[i].0,
        #[trigger] t[j].0,
    ) by {
        if i < p && j > p {
            assert(t[j] == s[j - 1]);
            assert(ranks_before(s[i].0, s[j - 1].0));
        } else if i > p {
            assert(ranks_before(s[i - 1].0, s[j - 1].0));
        } else if j < p {
            assert(ranks_before(s[i].0, s[j].0));
        } else if i == p {
            assert(t[j] == s[j - 1]);
        }
    }
}

/// Removing an entry from a sorted sequence keeps it sorted.
proof fn lemma_remove_sorted(s: Seq<EntryModel>, p: int)
    requires
        sorted(s),
        0 <= p < s.len(),
    ensures
        sorted(s.remove(p)),
{
    s.remove_ensures(p);
    let t = s.remove(p);
    assert forall|i: int, j: int| 0 <= i < j < t.len() implies ranks_before(
        #[trigger] t[i].0,
        #[trigger] t[j].0,
    ) by {
        let i2 = if i < p { i } else { i + 1 };
        let j2 = if j < p { j } else { j + 1 };
        assert(t[i] == s[i2] && t[j] == s[j2]);
        assert(ranks_before(s[i2].0, s[j2].0));
    }
}

/// A task with its descriptor as a mathematical value.
pub open spec fn task(priority: nat, id: nat, group: Option<Seq<char>>, text: Seq<char>) -> EntryModel {
    (DescriptorModel { priority, id, group }, text)
}

/// `t` is `s` with `e` put where the order puts it, at position `k - 1`, then reindexed:
/// `e` ends with id `k`.
pub open spec fn placed(s: Seq<EntryModel>, k: int, e: EntryModel, t: Seq<EntryModel>) -> bool {
    &&& 1 <= k <= s.len() + 1
    &&& sorted(s.insert(k - 1, e))
    &&& t == reindexed(s.insert(k - 1, e))
}

/// Two of the entries carry equal descriptors.
pub open spec fn has_duplicate(m: Seq<EntryModel>) -> bool {
    exists|a: int, b: int| 0 <= a < b < m.len() && m[a].0 == m[b].0
}

/// `pre` holds the entries of `m`, each once, in display order.
pub open spec fn arranged(m: Seq<EntryModel>, pre: Seq<EntryModel>) -> bool {
    &&& pre.len() == m.len()
    &&& sorted(pre)
    &&& forall|j: int| 0 <= j < m.len() ==> pre.contains(#[trigger] m[j])
}

/// The task store: tasks keyed by descriptor, held in display order (highest
/// priority first), with dense ids.
#[derive(Debug)]
pub struct Todos {
    entries: Vec<(Descriptor, String)>,
}

impl View for Todos {
    type V = Seq<EntryModel>;

    closed spec fn view(&self) -> Seq<EntryModel> {
        entries_view(self.entries@)
    }
}

impl Todos {
    pub open spec fn wf(&self) -> bool {
        well_formed(self@)
    }

    /// An empty store.
    pub fn new() -> (r: Todos)
        ensures
            r@ == Seq::<EntryModel>::empty(),
            r.wf(),
    {
        let r = Todos { entries: Vec::new() };
        assert(r@ =~= Seq::<EntryModel>::empty());
        r
    }

    /// The number of tasks.
    pub fn len(&self) -> (r: usize)
        ensures
            r == self@.len(),
    {
        self.entries.len()
    }

    /// Gives every task as id its rank in display order (1 for the task shown first).
    pub fn reindex(&mut self)
        requires
            sorted(old(self)@),
        ensures
            final(self)@ == reindexed(old(self)@),
            final(self).wf(),
    {
        let ghost s = self@;
        let n = self.entries.len();
        let mut out: Vec<(Descriptor, String)> = Vec::new();
        let mut i: usize = 0;
        while i < n
            invariant
                n == self.entries.len(),
                s == self@,
                i <= n,
                out@.len() == i,
                forall|k: int| 0 <= k < i ==> entry_view(#[trigger] out@[k]) == reindexed(s)[k],
            decreases n - i,
        {
            let e = &self.entries[i];
            let d = Descriptor { priority: e.0.priority, id: i + 1, group: copy_group(&e.0.group) };
            assert(entry_view(*e) == s[i as int]);
            out.push((d, e.1.clone()));
            i = i + 1;
        }
        self.entries = out;
        proof {
            assert(self@ =~= reindexed(s));
            lemma_reindexed_well_formed(s);
        }
    }

    /// The task with the given id, with its descriptor.
    pub fn get(&self, id: usize) -> (r: Option<(Descriptor, String)>)
        requires
            self.wf(),
        ensures
            r is Some <==> 1 <= id <= self@.len(),
            r is Some ==> entry_view(r->Some_0) == self@[id - 1],
    {
        let n = self.entries.len();
        let mut i: usize = 0;
        while i < n
            invariant
                n == self.entries.len(),
                self.wf(),
                i <= n,
                forall|k: int| 0 <= k < i ==> self@[k].0.id != id,
            decreases n - i,
        {
            let e = &self.entries[i];
            assert(entry_view(*e) == self@[i as int]);
            assert(self@[i as int].0.id == i + 1);
            if e.0.id == id {
                return Some((e.0.duplicate(), e.1.clone()));
            }
            i = i + 1;
        }
        proof {
            if 1 <= id <= n {
                assert(self@[id - 1].0.id == id);
            }
        }
        None
    }

    /// Puts a task where the order puts it; returns its position.
    fn insert_sorted(&mut self, d: Descriptor, text: String) -> (p: usize)
        requires
            sorted(old(self)@),
            forall|i: int| 0 <= i < old(self)@.len() ==> (#[trigger] old(self)@[i]).0 != d@,
        ensures
            p <= old(self)@.len(),
            final(self)@ == old(self)@.insert(p as int, (d@, text@)),
            sorted(final(self)@),
    {
        let ghost s = self@;
        let n = self.entries.len();
        let mut p: usize = 0;
        loop
            invariant
                n == self.entries.len(),
                s == self@,
                sorted(s),
                p <= n,
                forall|k: int| 0 <= k < p ==> ranks_before(#[trigger] s[k].0, d@),
                forall|k: int| 0 <= k < s.len() ==> (#[trigger] s[k]).0 != d@,
            ensures
                p <= n,
                forall|k: int| 0 <= k < p ==> ranks_before(#[trigger] s[k].0, d@),
                p < n ==> less(s[p as int].0, d@),
            decreases n - p,
        {
            if p == n {
                break;
            }
            assert(entry_view(self.entries@[p as int]) == s[p as int]);
            let c = self.entries[p].0.cmp(&d);
            match c {
                Ordering::Less => {
                    break;
                },
                _ => {},
            }
            proof {
                assert(s[p as int].0 != d@);
            }
            p = p + 1;
        }
        proof {
            assert forall|k: int| p <= k < s.len() implies ranks_before(d@, #[trigger] s[k].0) by {
                if k > p {
                    assert(ranks_before(s[p as int].0, s[k].0));
                    lemma_less_strict_total(s[k].0, s[p as int].0, d@);
                }
            }
            lemma_insert_sorted(s, p as int, (d@, text@));
        }
        let ghost e = (d, text);
        self.entries.insert(p, (d, text));
        proof {
            assert(self@ =~= s.insert(p as int, entry_view(e)));
        }
        p
    }

    /// The largest id in use, 0 for an empty store.
    fn max_id(&self) -> (r: usize)
        requires
            self.wf(),
        ensures
            r == self@.len(),
    {
        let n = self.entries.len();
        let mut m: usize = 0;
        let mut i: usize = 0;
        while i < n
            invariant
                n == self.entries.len(),
                n == self@.len(),
                self.wf(),
                i <= n,
                m == i,
            decreases n - i,
        {
            let e = &self.entries[i];
            assert(entry_view(*e) == self@[i as int]);
            assert(self@[i as int].0.id == i + 1);
            if e.0.id > m {
                m = e.0.id;
            }
            i = i + 1;
        }
        m
    }

    /// Adds a task. A text that is empty or solely whitespace is refused and the
    /// store stays as it was. Otherwise the task gets id `1 + ` the largest id, is
    /// put where the order puts it, and the store is reindexed; the result is the
    /// id that the task has after reindexing.
    pub fn add(&mut self, todo: String, priority: u8, group: Option<String>) -> (r: Result<
        usize,
        TodoError,
    >)
        requires
            old(self).wf(),
            old(self)@.len() < usize::MAX,
        ensures
            final(self).wf(),
            blank(todo@) ==> r == Err::<usize, TodoError>(TodoError::InvalidTask) && final(self)@
                == old(self)@,
            !blank(todo@) ==> r is Ok && placed(
                old(self)@,
                r->Ok_0 as int,
                task(priority as nat, old(self)@.len() + 1, group_view(group), todo@),
                final(self)@,
            ),
    {
        // empty, or solely whitespace
        if all_space(todo.as_str()) {
            return Err(TodoError::InvalidTask);
        }
        let ghost s = self@;
        let id = self.max_id() + 1;
        let d = Descriptor { priority: priority as usize, id, group };
        assert forall|i: int| 0 <= i < s.len() implies (#[trigger] s[i]).0 != d@ by {
            assert(s[i].0.id == i + 1);
        }
        let p = self.insert_sorted(d, todo);
        self.reindex();
        Ok(p + 1)
    }

    /// Changes the priority and group of the task with the given id, keeping its
    /// text and, before reindexing, its id. Without such a task: `TaskNotFound`, and
    /// the store stays as it was. The result is the task's id after reindexing.
    pub fn edit(&mut self, id: usize, priority: u8, group: Option<String>) -> (r: Result<
        usize,
        TodoError,
    >)
        requires
            old(self).wf(),
        ensures
            final(self).wf(),
            !(1 <= id <= old(self)@.len()) ==> r == Err::<usize, TodoError>(
                TodoError::TaskNotFound,
            ) && final(self)@ == old(self)@,
            1 <= id <= old(self)@.len() ==> r is Ok && placed(
                old(self)@.remove(id - 1),
                r->Ok_0 as int,
                task(priority as nat, id as nat, group_view(group), old(self)@[id - 1].1),
                final(self)@,
            ),
    {
        let bundle = self.get(id);
        match bundle {
            None => Err(TodoError::TaskNotFound),
            Some((_, text)) => {
                let ghost s = self@;
                let n = self.entries.len();
                assert(s.len() == n);
                // the task with id `id` stands at `id - 1`
                self.entries.remove(id - 1);
                proof {
                    assert(self@ =~= s.remove(id - 1));
                    lemma_remove_sorted(s, id - 1);
                    s.remove_ensures(id - 1);
                }
                let d = Descriptor { priority: priority as usize, id, group };
                assert forall|i: int| 0 <= i < self@.len() implies (#[trigger] self@[i]).0
                    != d@ by {
                    if i < id - 1 {
                        assert(s[i].0.id == i + 1);
                    } else {
                        assert(s[i + 1].0.id == i + 2);
                    }
                }
                let ghost m = self@.len();
                assert(m < s.len());
                let p = self.insert_sorted(d, text);
                self.reindex();
                assert(p <= m);
                Ok(p + 1)
            },
        }
    }

    /// Removes every task whose id is requested, then reindexes. The report lists
    /// the removed tasks in the store's ascending order (lowest priority first, the
    /// reverse of display order) and each requested id that matched nothing, once.
    pub fn delete(&mut self, ids: &Vec<usize>) -> (r: DeleteReport)
        requires
            old(self).wf(),
        ensures
            final(self).wf(),
            final(self)@ == reindexed(kept(old(self)@, ids@)),
            records_view(r.removed@) == removed(old(self)@, ids@),
            r.missing@ == missing(ids@, old(self)@.len()),
    {
        let ghost s = self@;
        let n = self.entries.len();
        let mut keep: Vec<(Descriptor, String)> = Vec::new();
        let mut gone: Vec<(usize, String)> = Vec::new();
        let mut i: usize = 0;
        proof {
            reveal(Seq::filter);
            assert(s.take(0) =~= Seq::<EntryModel>::empty());
            assert(entries_view(keep@) =~= kept(s.take(0), ids@));
            assert(records_view(gone@) =~= removed(s.take(0), ids@));
        }
        while i < n
            invariant
                n == self.entries.len(),
                n == s.len(),
                s == self@,
                well_formed(s),
                i <= n,
                entries_view(keep@) == kept(s.take(i as int), ids@),
                records_view(gone@) == removed(s.take(i as int), ids@),
                sorted(entries_view(keep@)),
                forall|k: int, m: int|
                    0 <= k < keep@.len() && i <= m < n ==> ranks_before(
                        #[trigger] entries_view(keep@)[k].0,
                        #[trigger] s[m].0,
                    ),
            decreases n - i,
        {
            let e = &self.entries[i];
            assert(entry_view(*e) == s[i as int]);
            assert(s.take(i + 1) =~= s.take(i as int).push(s[i as int]));
            let ghost kv = entries_view(keep@);
            let ghost gv = records_view(gone@);
            if requested_exec(ids, e.0.id) {
                gone.insert(0, (e.0.id, e.1.clone()));
                proof {
                    let f = |e: EntryModel| requested(ids@, e.0.id);
                    let h = |e: EntryModel| (e.0.id, e.1);
                    s.take(i as int).lemma_filter_push(s[i as int], f);
                    let fl = s.take(i as int).filter(f);
                    let fm = fl.map_values(h);
                    assert(fl.push(s[i as int]).map_values(h) =~= fm.push(h(s[i as int])));
                    assert(fm.push(h(s[i as int])).reverse() =~= seq![h(s[i as int])]
                        + fm.reverse());
                    assert(records_view(gone@) =~= seq![h(s[i as int])] + gv);
                    assert(records_view(gone@) =~= removed(s.take(i + 1), ids@));
                    let g = |e: EntryModel| !requested(ids@, e.0.id);
                    s.take(i as int).lemma_filter_push(s[i as int], g);
                }
            } else {
                keep.push((e.0.duplicate(), e.1.clone()));
                proof {
                    let g = |e: EntryModel| !requested(ids@, e.0.id);
                    s.take(i as int).lemma_filter_push(s[i as int], g);
                    assert(entries_view(keep@) =~= kv.push(s[i as int]));
                    let f = |e: EntryModel| requested(ids@, e.0.id);
                    s.take(i as int).lemma_filter_push(s[i as int], f);
                    assert forall|k: int, m: int|
                        0 <= k < keep@.len() && i + 1 <= m < n implies ranks_before(
                        #[trigger] entries_view(keep@)[k].0,
                        #[trigger] s[m].0,
                    ) by {
                        if k < kv.len() {
                            assert(entries_view(keep@)[k] == kv[k]);
                        }
                    }
                    assert forall|a: int, b: int|
                        0 <= a < b < entries_view(keep@).len() implies ranks_before(
                        #[trigger] entries_view(keep@)[a].0,
                        #[trigger] entries_view(keep@)[b].0,
                    ) by {
                        if b < kv.len() {
                            assert(entries_view(keep@)[a] == kv[a]);
                            assert(entries_view(keep@)[b] == kv[b]);
                        } else {
                            assert(entries_view(keep@)[a] == kv[a]);
                            assert(ranks_before(kv[a].0, s[i as int].0));
                        }
                    }
                }
            }
            i = i + 1;
        }
        let m = ids.len();
        let mut absent: Vec<usize> = Vec::new();
        let mut j: usize = 0;
        proof {
            assert(ids@.take(0) =~= Seq::<usize>::empty());
            assert(absent@ =~= missing(ids@.take(0), s.len()));
        }
        while j < m
            invariant
                m == ids@.len(),
                n == s.len(),
                j <= m,
                absent@ == missing(ids@.take(j as int), s.len()),
            decreases m - j,
        {
            let k = ids[j];
            assert(ids@.take(j + 1).drop_last() =~= ids@.take(j as int));
            assert(ids@.take(j + 1).last() == k);
            if !(1 <= k && k <= n) && !requested_exec(&absent, k) {
                absent.push(k);
            }
            j = j + 1;
        }
        proof {
            assert(s.take(n as int) =~= s);
            assert(ids@.take(m as int) =~= ids@);
        }
        self.entries = keep;
        self.reindex();
        DeleteReport { removed: gone, missing: absent }
    }

    /// The listing of all tasks in display order, a blank line between blocks of
    /// one priority and group; a "Nothing!" line where there are no tasks.
    pub fn list(&self) -> (r: Printer)
        ensures
            r@ == listing(self@),
    {
        let ghost s = self@;
        let n = self.entries.len();
        if n == 0 {
            let t = String::from_str("Nothing!");
            proof {
                reveal_strlit("Nothing!");
            }
            assert(t@ =~= nothing_text());
            return Printer::new().purple(t).newline();
        }
        let mut out = Printer::new();
        let mut i: usize = 0;
        assert(s.take(0) =~= Seq::<EntryModel>::empty());
        while i < n
            invariant
                n == self.entries.len(),
                n == s.len(),
                s == self@,
                i <= n,
                out@ == render(s.take(i as int)),
            decreases n - i,
        {
            let e = &self.entries[i];
            assert(entry_view(*e) == s[i as int]);
            let ghost before = out@;
            if i > 0 {
                let p = &self.entries[i - 1];
                assert(entry_view(*p) == s[i - 1]);
                let split = if p.0.priority != e.0.priority {
                    true
                } else {
                    match group_cmp(&p.0.group, &e.0.group) {
                        Ordering::Equal => false,
                        _ => true,
                    }
                };
                if split {
                    out = out.newline();
                }
                assert(split == !same_block(s[i - 1].0, s[i as int].0));
            }
            out = out.default(e.1.clone());
            out = e.0.describe(out);
            out = out.newline();
            proof {
                let t = s.take(i + 1);
                assert(t.drop_last() =~= s.take(i as int));
                assert(t.last() == s[i as int]);
                if i > 0 {
                    assert(t[t.len() - 2] == s[i - 1]);
                }
                let prev = if i > 0 {
                    Some(s[i - 1].0)
                } else {
                    None::<DescriptorModel>
                };
                assert(out@ =~= before + task_lines(prev, s[i as int]));
            }
            i = i + 1;
        }
        assert(s.take(n as int) =~= s);
        out
    }

    /// Builds a store from stored (descriptor, text) pairs in any order: each is put
    /// where the order puts it, then the store is reindexed. Two pairs with equal
    /// descriptors give `DuplicateDescriptor`.
    pub fn from_pairs(pairs: Vec<(Descriptor, String)>) -> (r: Result<Todos, TodoError>)
        ensures
            r is Err <==> has_duplicate(entries_view(pairs@)),
            r is Err ==> r->Err_0 == TodoError::DuplicateDescriptor,
            r is Ok ==> r->Ok_0.wf() && exists|pre: Seq<EntryModel>|
                arranged(entries_view(pairs@), pre) && r->Ok_0@ == reindexed(pre),
    {
        let ghost m = entries_view(pairs@);
        let n = pairs.len();
        let mut t = Todos { entries: Vec::new() };
        let mut i: usize = 0;
        let ghost mut origin: Seq<int> = Seq::empty();
        assert(t@ =~= Seq::<EntryModel>::empty());
        while i < n
            invariant
                n == m.len(),
                i <= n,
                n == pairs@.len(),
                m == entries_view(pairs@),
                t@.len() == i,
                sorted(t@),
                forall|a: int, b: int| 0 <= a < b < i ==> m[a].0 != m[b].0,
                forall|j: int| 0 <= j < i ==> t@.contains(#[trigger] m[j]),
                origin.len() == t@.len(),
                forall|q: int|
                    0 <= q < t@.len() ==> 0 <= #[trigger] origin[q] < i && m[origin[q]] == t@[q],
            decreases n - i,
        {
            let d = pairs[i].0.duplicate();
            let text = pairs[i].1.clone();
            assert(entry_view((d, text)) == m[i as int]);
            let len = t.entries.len();
            let mut k: usize = 0;
            while k < len
                invariant
                    len == t@.len(),
                    k <= len,
                    i < n,
                    n == m.len(),
                    m == entries_view(pairs@),
                    d@ == m[i as int].0,
                    forall|q: int| 0 <= q < k ==> (#[trigger] t@[q]).0 != d@,
                    origin.len() == t@.len(),
                    forall|q: int|
                        0 <= q < t@.len() ==> 0 <= #[trigger] origin[q] < i && m[origin[q]] == t@[q],
                decreases len - k,
            {
                assert(entry_view(t.entries@[k as int]) == t@[k as int]);
                match t.entries[k].0.cmp(&d) {
                    Ordering::Equal => {
                        proof {
                            let j = origin[k as int];
                            assert(m[j].0 == m[i as int].0);
                            assert(has_duplicate(m));
                        }
                        return Err(TodoError::DuplicateDescriptor);
                    },
                    _ => {},
                }
                k = k + 1;
            }
            let ghost old_t = t@;
            let p = t.insert_sorted(d, text);
            proof {
                old_t.insert_ensures(p as int, m[i as int]);
                assert forall|a: int, b: int| 0 <= a < b < i + 1 implies m[a].0 != m[b].0 by {
                    if b == i {
                        assert(old_t.contains(m[a]));
                    }
                }
                assert forall|j: int| 0 <= j < i + 1 implies t@.contains(#[trigger] m[j]) by {
                    if j < i {
                        let q = choose|q: int| 0 <= q < old_t.len() && old_t[q] == m[j];
                        if q < p {
                            assert(t@[q] == m[j]);
                        } else {
                            assert(t@[q + 1] == m[j]);
                        }
                    } else {
                        assert(t@[p as int] == m[j]);
                    }
                }
                origin = origin.insert(p as int, i as int);
                assert forall|q: int| 0 <= q < t@.len() implies 0 <= #[trigger] origin[q] < i + 1
                    && m[origin[q]] == t@[q] by {
                    if q < p {
                        assert(t@[q] == old_t[q]);
                    } else if q > p {
                        assert(t@[q] == old_t[q - 1]);
                    }
                }
            }
            i = i + 1;
        }
        proof {
            assert(!has_duplicate(m));
            assert(arranged(m, t@));
        }
        t.reindex();
        Ok(t)
    }

    /// The (descriptor, text) pairs, in display order, for storing.
    pub fn to_pairs(&self) -> (r: Vec<(Descriptor, String)>)
        ensures
            entries_view(r@) == self@,
    {
        let n = self.entries.len();
        let mut out: Vec<(Descriptor, String)> = Vec::new();
        let mut i: usize = 0;
        while i < n
            invariant
                n == self.entries.len(),
                i <= n,
                out@.len() == i,
                forall|k: int| 0 <= k < i ==> entry_view(#[trigger] out@[k]) == self@[k],
            decreases n - i,
        {
            let e = &self.entries[i];
            assert(entry_view(*e) == self@[i as int]);
            out.push((e.0.duplicate(), e.1.clone()));
            i = i + 1;
        }
        assert(entries_view(out@) =~= self@);
        out
    }
}

} // verus!
