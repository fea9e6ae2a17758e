use vstd::prelude::*;

use crate::token::Tag;

verus! {

/// Position of the first entry that holds `t`, or -1 where none does.
pub open spec fn tag_index(entries: Seq<(Tag, Vec<u8>)>, t: Tag) -> int
    decreases entries.len(),
{
    if entries.len() == 0 {
        -1
    } else if entries[0].0 == t {
        0
    } else {
        let k = tag_index(entries.drop_first(), t);
        if k < 0 {
            -1
        } else {
            k + 1
        }
    }
}

/// The captures after `b` is appended to the bytes of `t`.
pub open spec fn capture_add(m: Map<Tag, Seq<u8>>, t: Tag, b: u8) -> Map<Tag, Seq<u8>> {
    if m.contains_key(t) {
        m.insert(t, m[t].push(b))
    } else {
        m.insert(t, seq![b])
    }
}

proof fn lemma_tag_index_range(entries: Seq<(Tag, Vec<u8>)>, t: Tag)
    ensures
        -1 <= tag_index(entries, t) < entries.len(),
        tag_index(entries, t) >= 0 ==> entries[tag_index(entries, t)].0 == t,
        tag_index(entries, t) < 0 ==> forall|j: int| 0 <= j < entries.len() ==> entries[j].0 != t,
    decreases entries.len(),
{
    if entries.len() > 0 {
        lemma_tag_index_range(entries.drop_first(), t);
        if entries[0].0 != t && tag_index(entries, t) < 0 {
            assert forall|j: int| 0 <= j < entries.len() implies entries[j].0 != t by {
                if j > 0 {
                    assert(entries[j] == entries.drop_first()[j - 1]);
                }
            }
        }
    }
}

proof fn lemma_tag_index_first(entries: Seq<(Tag, Vec<u8>)>, t: Tag, i: int)
    requires
        0 <= i < entries.len(),
        entries[i].0 == t,
        forall|j: int| 0 <= j < i ==> entries[j].0 != t,
    ensures
        tag_index(entries, t) == i,
    decreases entries.len(),
{
    if i > 0 {
        lemma_tag_index_first(entries.drop_first(), t, i - 1);
    }
}

proof fn lemma_tag_index_none(entries: Seq<(Tag, Vec<u8>)>, t: Tag)
    requires
        forall|j: int| 0 <= j < entries.len() ==> entries[j].0 != t,
    ensures
        tag_index(entries, t) == -1,
    decreases entries.len(),
{
    if entries.len() > 0 {
        lemma_tag_index_none(entries.drop_first(), t);
    }
}

/// Replacing the bytes of an entry keeps every key where it was.
proof fn lemma_tag_index_update(entries: Seq<(Tag, Vec<u8>)>, i: int, v: Vec<u8>, u: Tag)
    requires
        0 <= i < entries.len(),
    ensures
        tag_index(entries.update(i, (entries[i].0, v)), u) == tag_index(entries, u),
    decreases entries.len(),
{
    let e2 = entries.update(i, (entries[i].0, v));
    if i > 0 {
        assert(e2.drop_first() =~= entries.drop_first().update(i - 1, (entries[i].0, v)));
        lemma_tag_index_update(entries.drop_first(), i - 1, v, u);
    }
    else {
        assert(e2.drop_first() =~= entries.drop_first());
    }
}

/// A pushed entry is found only where no earlier one holds its key.
proof fn lemma_tag_index_push(entries: Seq<(Tag, Vec<u8>)>, e: (Tag, Vec<u8>), u: Tag)
    ensures
        tag_index(entries, u) >= 0 ==> tag_index(entries.push(e), u) == tag_index(entries, u),
        tag_index(entries, u) < 0 && e.0 == u ==> tag_index(entries.push(e), u) == entries.len(),
        tag_index(entries, u) < 0 && e.0 != u ==> tag_index(entries.push(e), u) == -1,
    decreases entries.len(),
{
    if entries.len() > 0 {
        assert(entries.push(e).drop_first() =~= entries.drop_first().push(e));
        lemma_tag_index_push(entries.drop_first(), e, u);
    } else {
        assert(entries.push(e).drop_first() =~= entries);
    }
}

/// The bytes captured for each tag during a match.
pub struct CaptureBuffer {
    entries: Vec<(Tag, Vec<u8>)>,
}

impl View for CaptureBuffer {
    type V = Map<Tag, Seq<u8>>;

    closed spec fn view(&self) -> Map<Tag, Seq<u8>> {
        Map::new(
            |t: Tag| tag_index(self.entries@, t) >= 0,
            |t: Tag| self.entries@[tag_index(self.entries@, t)].1@,
        )
    }
}

impl CaptureBuffer {
    pub fn new() -> (r: Self)
        ensures
            r@ == Map::<Tag, Seq<u8>>::empty(),
    {
        let r = CaptureBuffer { entries: Vec::new() };
        assert(r@ =~= Map::<Tag, Seq<u8>>::empty());
        r
    }

    /// Forgets every capture.
    pub fn clear(&mut self)
        ensures
            final(self)@ == Map::<Tag, Seq<u8>>::empty(),
    {
        self.entries.clear();
        assert(self@ =~= Map::<Tag, Seq<u8>>::empty());
    }

    pub fn is_empty(&self) -> (r: bool)
        ensures
            r == (self@ == Map::<Tag, Seq<u8>>::empty()),
    {
        proof {
            if self.entries@.len() > 0 {
                let t = self.entries@[0].0;
                assert(tag_index(self.entries@, t) == 0);
                assert(self@.contains_key(t));
                assert(!Map::<Tag, Seq<u8>>::empty().contains_key(t));
            } else {
                assert(self@ =~= Map::<Tag, Seq<u8>>::empty());
            }
        }
        self.entries.len() == 0
    }

    fn find(&self, tag: &Tag) -> (r: Option<usize>)
        ensures
            r is None ==> tag_index(self.entries@, *tag) < 0,
            r is Some ==> r->0 == tag_index(self.entries@, *tag) && r->0 < self.entries@.len(),
    {
        let mut i: usize = 0;
        while i < self.entries.len()
            invariant
                i <= self.entries@.len(),
                forall|j: int| 0 <= j < i ==> self.entries@[j].0 != *tag,
            decreases self.entries@.len() - i,
        {
            if self.entries[i].0 == *tag {
                proof {
                    lemma_tag_index_first(self.entries@, *tag, i as int);
                }
                return Some(i);
            }
            i += 1;
        }
        proof {
            lemma_tag_index_none(self.entries@, *tag);
        }
        None
    }

    /// The bytes captured for `tag`, if any.
    pub fn get(&self, tag: &Tag) -> (r: Option<&Vec<u8>>)
        ensures
            r.is_some() == self@.contains_key(*tag),
            r.is_some() ==> r->0@ == self@[*tag],
    {
        match self.find(tag) {
            Some(i) => Some(&self.entries[i].1),
            None => None,
        }
    }

    /// Appends `b` to the bytes of `tag`, which are made room for first where
    /// `tag` has none yet.
    pub fn push_byte(&mut self, tag: Tag, b: u8)
        ensures
            final(self)@ == capture_add(old(self)@, tag, b),
    {
        let ghost old_entries = self.entries@;
        match self.find(&tag) {
            Some(i) => {
                let mut e: (Tag, Vec<u8>) = (tag, Vec::new());
                self.entries.set_and_swap(i, &mut e);
                e.1.push(b);
                let ghost v = e.1;
                self.entries.set(i, e);
                proof {
                    lemma_tag_index_range(old_entries, tag);
                    assert(self.entries@ == old_entries.update(i as int, (old_entries[i as int].0, v)));
                    assert forall|u: Tag| #[trigger] tag_index(self.entries@, u) == tag_index(old_entries, u) by {
                        lemma_tag_index_update(old_entries, i as int, v, u);
                    }
                    let goal = capture_add(old(self)@, tag, b);
                    assert forall|u: Tag| #[trigger] self@.contains_key(u) == goal.contains_key(u)
                        && (self@.contains_key(u) ==> self@[u] == goal[u]) by {
                        lemma_tag_index_range(old_entries, u);
                    }
                    assert(self@ =~= goal);
                }
            },
            None => {
                let mut v: Vec<u8> = Vec::with_capacity(tag.size());
                v.push(b);
                let ghost e = (tag, v);
                self.entries.push((tag, v));
                proof {
                    assert(v@ =~= seq![b]);
                    assert forall|u: Tag| #[trigger] tag_index(self.entries@, u) == (if u == tag {
                        old_entries.len() as int
                    } else {
                        tag_index(old_entries, u)
                    }) by {
                        lemma_tag_index_push(old_entries, e, u);
                        lemma_tag_index_range(old_entries, u);
                    }
                    let goal = capture_add(old(self)@, tag, b);
                    assert forall|u: Tag| #[trigger] self@.contains_key(u) == goal.contains_key(u)
                        && (self@.contains_key(u) ==> self@[u] == goal[u]) by {
                        lemma_tag_index_range(old_entries, u);
                        assert(self.entries@[old_entries.len() as int] == e);
                        if tag_index(old_entries, u) >= 0 {
                            assert(self.entries@[tag_index(old_entries, u)] == old_entries[tag_index(old_entries, u)]);
                        }
                    }
                    assert(self@ =~= goal);
                }
            },
        }
    }

    /// A copy of the captures.
    pub fn snapshot(&self) -> (r: CaptureBuffer)
        ensures
            r@ == self@,
    {
        let mut entries: Vec<(Tag, Vec<u8>)> = Vec::new();
        let mut i: usize = 0;
        while i < self.entries.len()
            invariant
                i <= self.entries@.len(),
                entries@.len() == i,
                forall|j: int| 0 <= j < i ==> #[trigger] entries@[j].0 == self.entries@[j].0
                    && entries@[j].1@ == self.entries@[j].1@,
            decreases self.entries@.len() - i,
        {
            let src = &self.entries[i].1;
            let mut bytes: Vec<u8> = Vec::with_capacity(src.len());
            let mut k: usize = 0;
            while k < src.len()
                invariant
                    k <= src@.len(),
                    bytes@ == src@.subrange(0, k as int),
                decreases src@.len() - k,
            {
                bytes.push(src[k]);
                k += 1;
                assert(bytes@ =~= src@.subrange(0, k as int));
            }
            assert(bytes@ =~= src@);
            entries.push((self.entries[i].0, bytes));
            i += 1;
        }
        let r = CaptureBuffer { entries };
        proof {
            assert forall|u: Tag| #[trigger] tag_index(r.entries@, u) == tag_index(self.entries@, u) by {
                lemma_tag_index_same_keys(r.entries@, self.entries@, u);
            }
            assert forall|u: Tag| #[trigger] r@.contains_key(u) == self@.contains_key(u)
                && (r@.contains_key(u) ==> r@[u] == self@[u]) by {
                lemma_tag_index_range(self.entries@, u);
                let k = tag_index(self.entries@, u);
                if k >= 0 {
                    assert(r.entries@[k].0 == self.entries@[k].0);
                }
            }
            assert(r@ =~= self@);
        }
        r
    }
}

proof fn lemma_tag_index_same_keys(a: Seq<(Tag, Vec<u8>)>, b: Seq<(Tag, Vec<u8>)>, u: Tag)
    requires
        a.len() == b.len(),
        forall|j: int| 0 <= j < a.len() ==> #[trigger] a[j].0 == b[j].0,
    ensures
        tag_index(a, u) == tag_index(b, u),
    decreases a.len(),
{
    if a.len() > 0 {
        assert(a[0].0 == b[0].0);
        assert forall|j: int| 0 <= j < a.drop_first().len() implies #[trigger] a.drop_first()[j].0
            == b.drop_first()[j].0 by {
            assert(a[j + 1].0 == b[j + 1].0);
        }
        lemma_tag_index_same_keys(a.drop_first(), b.drop_first(), u);
    }
}

} // verus!
