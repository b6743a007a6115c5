//! A first-in first-out list of distinct object ids (process or handle ids),
//! with removal of any member.
use vstd::prelude::*;

verus! {

pub struct DList {
    items: Vec<usize>,
}

impl View for DList {
    type V = Seq<usize>;

    closed spec fn view(&self) -> Seq<usize> {
        self.items@
    }
}

impl DList {
    /// No id is on the list twice.
    pub open spec fn wf(&self) -> bool {
        self@.no_duplicates()
    }

    pub fn empty() -> (l: DList)
        ensures
            l.wf(),
            l@ == Seq::<usize>::empty(),
    {
        DList { items: Vec::new() }
    }

    pub fn contains(&self, item: usize) -> (r: bool)
        ensures
            r == self@.contains(item),
    {
        let mut i: usize = 0;
        while i < self.items.len()
            invariant
                i <= self@.len(),
                forall|j: int| 0 <= j < i ==> self@[j] != item,
            decreases self@.len() - i,
        {
            if self.items[i] == item {
                return true;
            }
            i = i + 1;
        }
        false
    }

    /// Appends `item` at the tail. The item must not be on the list already.
    pub fn append(&mut self, item: usize)
        requires
            !old(self)@.contains(item),
            old(self).wf(),
        ensures
            final(self)@ == old(self)@.push(item),
            final(self).wf(),
    {
        self.items.push(item);
    }

    /// Takes the head off the list.
    pub fn pop(&mut self) -> (r: Option<usize>)
        requires
            old(self).wf(),
        ensures
            final(self).wf(),
            old(self)@.len() == 0 ==> r is None && final(self)@ == old(self)@,
            old(self)@.len() > 0 ==> r == Some(old(self)@[0]) && final(self)@ == old(self)@.drop_first(),
    {
        if self.items.len() == 0 {
            None
        } else {
            let h = self.items.remove(0);
            assert(old(self)@.remove(0) =~= old(self)@.drop_first());
            Some(h)
        }
    }

    /// Unlinks `item` wherever it stands; a list without it is left as it is.
    pub fn remove(&mut self, item: usize) -> (r: usize)
        requires
            old(self).wf(),
        ensures
            r == item,
            final(self).wf(),
            final(self)@ == old(self)@.filter(|x: usize| x != item),
            !final(self)@.contains(item),
            forall|x: usize| x != item ==> (final(self)@.contains(x) <==> old(self)@.contains(x)),
    {
        let mut i: usize = 0;
        while i < self.items.len()
            invariant
                i <= self@.len(),
                self@ == old(self)@,
                self.wf(),
                forall|j: int| 0 <= j < i ==> self@[j] != item,
            decreases self@.len() - i,
        {
            if self.items[i] == item {
                let ghost s = self@;
                self.items.remove(i);
                proof {
                    lemma_filter_remove(s, i as int, item);
                }
                return item;
            }
            i = i + 1;
        }
        proof {
            lemma_filter_absent(self@, item);
        }
        item
    }

    /// The ids on the list, head first.
    pub fn iter(&self) -> (r: &Vec<usize>)
        ensures
            r@ == self@,
    {
        &self.items
    }
}

/// Filtering out an id that is not there changes nothing.
proof fn lemma_filter_absent(s: Seq<usize>, item: usize)
    requires
        !s.contains(item),
    ensures
        s.filter(|x: usize| x != item) == s,
    decreases s.len(),
{
    reveal(Seq::filter);
    if s.len() > 0 {
        assert(!s.drop_last().contains(item)) by {
            if s.drop_last().contains(item) {
                let j = choose|j: int| 0 <= j < s.drop_last().len() && s.drop_last()[j] == item;
                assert(s[j] == item);
            }
        }
        lemma_filter_absent(s.drop_last(), item);
        assert(s.last() != item);
        assert(s.drop_last().push(s.last()) =~= s);
    }
}

/// Filtering out an id that stands once is removing it where it stands.
proof fn lemma_filter_remove(s: Seq<usize>, i: int, item: usize)
    requires
        s.no_duplicates(),
        0 <= i < s.len(),
        s[i] == item,
    ensures
        s.filter(|x: usize| x != item) == s.remove(i),
        s.remove(i).no_duplicates(),
        !s.remove(i).contains(item),
        forall|x: usize| x != item ==> (s.remove(i).contains(x) <==> s.contains(x)),
{
    let r = s.remove(i);
    assert(s =~= s.subrange(0, i) + s.subrange(i, s.len() as int));
    assert(r =~= s.subrange(0, i) + s.subrange(i + 1, s.len() as int));
    let a = s.subrange(0, i);
    let b = s.subrange(i + 1, s.len() as int);
    assert(!a.contains(item)) by {
        if a.contains(item) {
            let j = choose|j: int| 0 <= j < a.len() && a[j] == item;
            assert(s[j] == item);
        }
    }
    assert(!b.contains(item)) by {
        if b.contains(item) {
            let j = choose|j: int| 0 <= j < b.len() && b[j] == item;
            assert(s[i + 1 + j] == item);
        }
    }
    lemma_filter_absent(a, item);
    lemma_filter_absent(b, item);
    let f = |x: usize| x != item;
    let one = seq![item];
    assert(s =~= a + (one + b));
    Seq::filter_distributes_over_add(a, one + b, f);
    Seq::filter_distributes_over_add(one, b, f);
    assert(one.filter(f) =~= Seq::<usize>::empty()) by {
        reveal(Seq::filter);
        assert(one.drop_last() =~= Seq::<usize>::empty());
        assert(Seq::<usize>::empty().filter(f) =~= Seq::<usize>::empty());
    }
    assert(r =~= a + b);
    assert(a.filter(f) + (Seq::<usize>::empty() + b) =~= a + b);
    assert forall|x: usize| x != item implies (r.contains(x) <==> s.contains(x)) by {
        if r.contains(x) {
            let j = choose|j: int| 0 <= j < r.len() && r[j] == x;
            if j < i {
                assert(s[j] == x);
            } else {
                assert(s[j + 1] == x);
            }
        }
        if s.contains(x) {
            let j = choose|j: int| 0 <= j < s.len() && s[j] == x;
            assert(j != i);
            if j < i {
                assert(r[j] == x);
            } else {
                assert(r[j - 1] == x);
            }
        }
    }
    assert(!r.contains(item)) by {
        if r.contains(item) {
            let j = choose|j: int| 0 <= j < r.len() && r[j] == item;
            if j < i {
                assert(s[j] == item);
            } else {
                assert(s[j + 1] == item);
            }
        }
    }
    assert(r.no_duplicates()) by {
        assert forall|p: int, q: int| 0 <= p < r.len() && 0 <= q < r.len() && p != q implies r[p] != r[q] by {
            let p2 = if p < i { p } else { p + 1 };
            let q2 = if q < i { q } else { q + 1 };
            assert(r[p] == s[p2] && r[q] == s[q2]);
        }
    }
}

} // verus!
