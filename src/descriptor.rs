use std::cmp::Ordering;
use vstd::prelude::*;

verus! {

/// The composite key of a task: its priority, its displayed id and its optional group.
#[derive(Debug)]
pub struct Descriptor {
    pub priority: usize,
    pub id: usize,
    pub group: Option<String>,
}

/// The mathematical model of a `Descriptor`.
pub struct DescriptorModel {
    pub priority: nat,
    pub id: nat,
    pub group: Option<Seq<char>>,
}

pub open spec fn group_view(g: Option<String>) -> Option<Seq<char>> {
    match g {
        Some(s) => Some(s@),
        None => None,
    }
}

impl View for Descriptor {
    type V = DescriptorModel;

    open spec fn view(&self) -> DescriptorModel {
        DescriptorModel {
            priority: self.priority as nat,
            id: self.id as nat,
            group: group_view(self.group),
        }
    }
}

/// Lexicographic order on texts, character by character (code point order).
pub open spec fn text_lt(a: Seq<char>, b: Seq<char>) -> bool
    decreases a.len(),
{
    if a.len() == 0 {
        b.len() > 0
    } else if b.len() == 0 {
        false
    } else if a[0] != b[0] {
        (a[0] as u32) < (b[0] as u32)
    } else {
        text_lt(a.drop_first(), b.drop_first())
    }
}

/// An absent group sorts before any present group; present groups compare as texts.
pub open spec fn group_lt(a: Option<Seq<char>>, b: Option<Seq<char>>) -> bool {
    match (a, b) {
        (None, Some(_)) => true,
        (Some(x), Some(y)) => text_lt(x, y),
        _ => false,
    }
}

/// The total order of descriptors, the order in which a store holds them ascending:
/// by priority, then by group, then by id, where a lower id sorts *later*, so that
/// in the descending (display) order a lower id comes first within its block.
pub open spec fn less(a: DescriptorModel, b: DescriptorModel) -> bool {
    ||| a.priority < b.priority
    ||| a.priority == b.priority && group_lt(a.group, b.group)
    ||| a.priority == b.priority && a.group == b.group && a.id > b.id
}

/// `a` is displayed before `b`: the display order is the descending total order.
pub open spec fn ranks_before(a: DescriptorModel, b: DescriptorModel) -> bool {
    less(b, a)
}

pub proof fn lemma_text_lt_irreflexive(a: Seq<char>)
    ensures
        !text_lt(a, a),
    decreases a.len(),
{
    if a.len() > 0 {
        lemma_text_lt_irreflexive(a.drop_first());
    }
}

pub proof fn lemma_text_lt_asymmetric(a: Seq<char>, b: Seq<char>)
    requires
        text_lt(a, b),
    ensures
        !text_lt(b, a),
    decreases a.len(),
{
    if a.len() > 0 && b.len() > 0 && a[0] == b[0] {
        lemma_text_lt_asymmetric(a.drop_first(), b.drop_first());
    }
}

pub proof fn lemma_text_lt_transitive(a: Seq<char>, b: Seq<char>, c: Seq<char>)
    requires
        text_lt(a, b),
        text_lt(b, c),
    ensures
        text_lt(a, c),
    decreases a.len(),
{
    if a.len() > 0 && b.len() > 0 && c.len() > 0 && a[0] == b[0] && b[0] == c[0] {
        lemma_text_lt_transitive(a.drop_first(), b.drop_first(), c.drop_first());
    }
}

pub proof fn lemma_text_lt_total(a: Seq<char>, b: Seq<char>)
    requires
        !text_lt(a, b),
        !text_lt(b, a),
    ensures
        a == b,
    decreases a.len(),
{
    if a.len() > 0 && b.len() > 0 {
        vstd::utf8::char_u32_cast(a[0], a[0] as u32);
        vstd::utf8::char_u32_cast(b[0], b[0] as u32);
        assert(a[0] == b[0]);
        lemma_text_lt_total(a.drop_first(), b.drop_first());
        assert(a =~= seq![a[0]] + a.drop_first());
        assert(b =~= seq![b[0]] + b.drop_first());
    }
}

/// The descriptor order is a strict total order.
pub proof fn lemma_less_strict_total(a: DescriptorModel, b: DescriptorModel, c: DescriptorModel)
    ensures
        !less(a, a),
        less(a, b) ==> !less(b, a),
        less(a, b) && less(b, c) ==> less(a, c),
        !less(a, b) && !less(b, a) ==> a == b,
{
    if let Some(x) = a.group {
        lemma_text_lt_irreflexive(x);
    }
    if let (Some(x), Some(y)) = (a.group, b.group) {
        if text_lt(x, y) {
            lemma_text_lt_asymmetric(x, y);
        }
        if !text_lt(x, y) && !text_lt(y, x) {
            lemma_text_lt_total(x, y);
        }
        if let Some(z) = c.group {
            if text_lt(x, y) && text_lt(y, z) {
                lemma_text_lt_transitive(x, y, z);
            }
        }
    }
}

/// Compares two texts in the order of `text_lt`.
pub fn text_cmp(a: &str, b: &str) -> (r: Ordering)
    ensures
        r == Ordering::Less <==> text_lt(a@, b@),
        r == Ordering::Equal <==> a@ == b@,
        r == Ordering::Greater <==> text_lt(b@, a@),
{
    let la = a.unicode_len();
    let lb = b.unicode_len();
    let mut i: usize = 0;
    let mut r = Ordering::Equal;
    assert(a@.skip(0) =~= a@);
    assert(b@.skip(0) =~= b@);
    loop
        invariant
            i <= la,
            i <= lb,
            la == a@.len(),
            lb == b@.len(),
            a@.take(i as int) == b@.take(i as int),
            text_lt(a@, b@) == text_lt(a@.skip(i as int), b@.skip(i as int)),
            text_lt(b@, a@) == text_lt(b@.skip(i as int), a@.skip(i as int)),
        ensures
            r == Ordering::Less ==> text_lt(a@, b@),
            r == Ordering::Greater ==> text_lt(b@, a@),
            r == Ordering::Equal ==> a@ == b@,
        decreases la - i,
    {
        if i == la {
            if i == lb {
                r = Ordering::Equal;
                assert(a@ =~= a@.take(i as int));
                assert(b@ =~= b@.take(i as int));
            } else {
                r = Ordering::Less;
                assert(text_lt(a@.skip(i as int), b@.skip(i as int)));
            }
            break;
        }
        if i == lb {
            r = Ordering::Greater;
            assert(text_lt(b@.skip(i as int), a@.skip(i as int)));
            break;
        }
        let ca = a.get_char(i);
        let cb = b.get_char(i);
        if ca != cb {
            assert(a@.skip(i as int)[0] == ca);
            assert(b@.skip(i as int)[0] == cb);
            proof {
                vstd::utf8::char_u32_cast(ca, ca as u32);
                vstd::utf8::char_u32_cast(cb, cb as u32);
            }
            if (ca as u32) < (cb as u32) {
                r = Ordering::Less;
                assert(text_lt(a@.skip(i as int), b@.skip(i as int)));
            } else {
                r = Ordering::Greater;
                assert(text_lt(b@.skip(i as int), a@.skip(i as int)));
            }
            break;
        }
        assert(a@.skip(i as int).drop_first() =~= a@.skip(i + 1));
        assert(b@.skip(i as int).drop_first() =~= b@.skip(i + 1));
        assert(a@.take(i + 1) =~= a@.take(i as int).push(ca));
        assert(b@.take(i + 1) =~= b@.take(i as int).push(cb));
        i = i + 1;
    }
    proof {
        lemma_text_lt_irreflexive(a@);
        if text_lt(a@, b@) {
            lemma_text_lt_asymmetric(a@, b@);
        }
        if text_lt(b@, a@) {
            lemma_text_lt_asymmetric(b@, a@);
        }
        if !text_lt(a@, b@) && !text_lt(b@, a@) {
            lemma_text_lt_total(a@, b@);
        }
    }
    r
}

/// Compares two optional groups in the order of `group_lt`.
pub fn group_cmp(a: &Option<String>, b: &Option<String>) -> (r: Ordering)
    ensures
        r == Ordering::Less <==> group_lt(group_view(*a), group_view(*b)),
        r == Ordering::Equal <==> group_view(*a) == group_view(*b),
        r == Ordering::Greater <==> group_lt(group_view(*b), group_view(*a)),
{
    match (a, b) {
        (None, None) => Ordering::Equal,
        (None, Some(_)) => Ordering::Less,
        (Some(_), None) => Ordering::Greater,
        (Some(x), Some(y)) => text_cmp(x.as_str(), y.as_str()),
    }
}

/// Copies an optional group.
pub fn copy_group(g: &Option<String>) -> (r: Option<String>)
    ensures
        group_view(r) == group_view(*g),
{
    match g {
        Some(s) => Some(s.clone()),
        None => None,
    }
}

impl PartialEq for Descriptor {
    fn eq(&self, other: &Descriptor) -> (r: bool) {
        match self.cmp(other) {
            Ordering::Equal => true,
            _ => false,
        }
    }
}

impl vstd::std_specs::cmp::PartialEqSpecImpl for Descriptor {
    open spec fn obeys_eq_spec() -> bool {
        true
    }

    open spec fn eq_spec(&self, other: &Descriptor) -> bool {
        self@ == other@
    }
}

impl Descriptor {
    /// Compares two descriptors in the total order `less`.
    pub fn cmp(&self, other: &Self) -> (r: Ordering)
        ensures
            r == Ordering::Less <==> less(self@, other@),
            r == Ordering::Equal <==> self@ == other@,
            r == Ordering::Greater <==> less(other@, self@),
    {
        proof {
            lemma_less_strict_total(self@, other@, self@);
            lemma_less_strict_total(other@, self@, other@);
        }
        if self.priority < other.priority {
            return Ordering::Less;
        }
        if self.priority > other.priority {
            return Ordering::Greater;
        }
        let g = group_cmp(&self.group, &other.group);
        match g {
            Ordering::Equal => {},
            _ => {
                return g;
            },
        }
        // a lower id ranks higher on the list, so it sorts later
        if self.id < other.id {
            Ordering::Greater
        } else if self.id > other.id {
            Ordering::Less
        } else {
            Ordering::Equal
        }
    }

    /// A copy of this descriptor.
    pub fn duplicate(&self) -> (r: Descriptor)
        ensures
            r@ == self@,
    {
        Descriptor { priority: self.priority, id: self.id, group: copy_group(&self.group) }
    }
}

} // verus!
