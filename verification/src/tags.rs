//! A dense vector whose items carry stable tags.

use vstd::prelude::*;

verus! {

/// The sequence `s` after `Vec::swap_remove(i)`: the last item moves to `i`.
pub open spec fn swap_removed<A>(s: Seq<A>, i: int) -> Seq<A> {
    s.update(i, s.last()).drop_last()
}

/// The smallest tag at or after `start` whose slot is free, or the length of
/// `indices` when every slot from `start` on is occupied.
pub open spec fn first_free_from(indices: Seq<Option<usize>>, start: int) -> int
    decreases indices.len() - start,
{
    if start >= indices.len() {
        indices.len() as int
    } else if indices[start] is None {
        start
    } else {
        first_free_from(indices, start + 1)
    }
}

/// The smallest tag that no item holds: the first free slot, else a new slot
/// at the end.
pub open spec fn first_free(indices: Seq<Option<usize>>) -> int {
    first_free_from(indices, 0)
}

/// `first_free_from` names a free slot (or the end) and skips only occupied slots.
pub proof fn lemma_first_free_from(indices: Seq<Option<usize>>, start: int)
    requires
        0 <= start <= indices.len(),
    ensures
        start <= first_free_from(indices, start) <= indices.len(),
        first_free_from(indices, start) < indices.len() ==> indices[first_free_from(
            indices,
            start,
        )] is None,
        forall|u: int| start <= u < first_free_from(indices, start) ==> #[trigger] indices[u] is Some,
    decreases indices.len() - start,
{
    if start < indices.len() && indices[start] is Some {
        lemma_first_free_from(indices, start + 1);
    }
}

/// The first free tag is free (or the end), and every smaller tag is taken.
pub proof fn lemma_first_free(indices: Seq<Option<usize>>)
    ensures
        0 <= first_free(indices) <= indices.len(),
        first_free(indices) < indices.len() ==> indices[first_free(indices)] is None,
        forall|u: int| 0 <= u < first_free(indices) ==> #[trigger] indices[u] is Some,
{
    lemma_first_free_from(indices, 0);
}

/// Any slot that is free and below every other free slot is the first free tag.
pub proof fn lemma_first_free_unique(indices: Seq<Option<usize>>, t: int)
    requires
        0 <= t <= indices.len(),
        t < indices.len() ==> indices[t] is None,
        forall|u: int| 0 <= u < t ==> #[trigger] indices[u] is Some,
    ensures
        first_free(indices) == t,
{
    lemma_first_free(indices);
    if first_free(indices) < t {
        assert(indices[first_free(indices)] is Some);
    }
    if first_free(indices) > t {
        assert(indices[t] is Some);
    }
}

/// The map view of `after` is that of `before` with `tag` bound to `item`.
pub open spec fn final_map_ok<T>(before: VecWithTags<T>, after: VecWithTags<T>, tag: usize, item: T) -> bool {
    after.tag_map() == before.tag_map().insert(tag, item)
}

/// A dense vector with constant-time removal.
///
/// Each item pushed receives a tag. Items live in index order (`items`), and
/// `indices[tag]` locates the item with a given tag. Removal moves the last
/// item into the hole, and the removed tag becomes free. The next push takes
/// the smallest free tag.
#[derive(Clone)]
pub struct VecWithTags<T> {
    /// Items in index order.
    pub items: Vec<T>,
    /// Tags of the items, in index order.
    pub tags: Vec<usize>,
    /// Indices of the items, in tag order (`None` for a free tag).
    pub indices: Vec<Option<usize>>,
    /// The free tags, each once, in no particular order.
    pub free_tags: Vec<usize>,
}

impl<T> VecWithTags<T> {
    /// Items and tags line up, and `indices` inverts `tags`.
    pub open spec fn index_wf(&self) -> bool {
        &&& self.items@.len() == self.tags@.len()
        &&& forall|i: int|
            0 <= i < self.tags@.len() ==> {
                &&& #[trigger] self.tags@[i] < self.indices@.len()
                &&& self.indices@[self.tags@[i] as int] == Some(i as usize)
            }
        &&& forall|t: int|
            0 <= t < self.indices@.len() && #[trigger] self.indices@[t] is Some ==> {
                &&& self.indices@[t]->0 < self.tags@.len()
                &&& self.tags@[self.indices@[t]->0 as int] == t
            }
    }

    /// `free_tags` lists each free slot of `indices` exactly once.
    pub open spec fn free_wf(&self) -> bool {
        &&& forall|k: int|
            0 <= k < self.free_tags@.len() ==> {
                &&& #[trigger] self.free_tags@[k] < self.indices@.len()
                &&& self.indices@[self.free_tags@[k] as int] is None
            }
        &&& forall|t: int|
            0 <= t < self.indices@.len() && #[trigger] self.indices@[t] is None
                ==> self.free_tags@.contains(t as usize)
        &&& forall|a: int, b: int|
            0 <= a < b < self.free_tags@.len() ==> self.free_tags@[a] != self.free_tags@[b]
    }

    /// The vector is well formed: tags and indices agree, and the free tags
    /// are listed.
    pub open spec fn wf(&self) -> bool {
        self.index_wf() && self.free_wf()
    }

    /// The tag `t` belongs to an item.
    pub open spec fn has_tag(&self, t: int) -> bool {
        0 <= t < self.indices@.len() && self.indices@[t] is Some
    }

    /// Index of the item with tag `t`.
    pub open spec fn index_of(&self, t: int) -> int {
        self.indices@[t]->0 as int
    }

    /// The item with tag `t`.
    pub open spec fn item_of(&self, t: int) -> T {
        self.items@[self.index_of(t)]
    }

    /// The items by tag.
    pub open spec fn tag_map(&self) -> Map<usize, T> {
        Map::new(|t: usize| self.has_tag(t as int), |t: usize| self.item_of(t as int))
    }

    /// The tag that the next push assigns.
    pub open spec fn next_tag_spec(&self) -> int {
        first_free(self.indices@)
    }

    /// Distinct positions hold distinct tags.
    pub proof fn lemma_tags_distinct(&self, i: int, j: int)
        requires
            self.wf(),
            0 <= i < self.tags@.len(),
            0 <= j < self.tags@.len(),
            i != j,
        ensures
            self.tags@[i] != self.tags@[j],
    {
        assert(self.tags@.len() == self.tags.len());
        assert(self.indices@[self.tags@[i] as int] == Some(i as usize));
        assert(self.indices@[self.tags@[j] as int] == Some(j as usize));
    }

    /// The item at index `i` holds the tag `t` exactly when `t` locates `i`.
    pub proof fn lemma_tags_index(&self, t: int, i: int)
        requires
            self.wf(),
            self.has_tag(t),
            0 <= i < self.tags@.len(),
            self.tags@[self.index_of(t)] == t,
        ensures
            (self.tags@[i] == t) == (self.index_of(t) == i),
    {
        if self.index_of(t) != i {
            self.lemma_tags_distinct(self.index_of(t), i);
        }
    }

    /// Construct an empty vector.
    pub fn new() -> (r: Self)
        ensures
            r.wf(),
            r.items@ == Seq::<T>::empty(),
            r.tags@ == Seq::<usize>::empty(),
            r.indices@ == Seq::<Option<usize>>::empty(),
    {
        VecWithTags { items: Vec::new(), tags: Vec::new(), indices: Vec::new(), free_tags: Vec::new() }
    }

    /// Remove all items and forget all tags.
    pub fn clear(&mut self)
        ensures
            final(self).wf(),
            final(self).items@ == Seq::<T>::empty(),
            final(self).tags@ == Seq::<usize>::empty(),
            final(self).indices@ == Seq::<Option<usize>>::empty(),
    {
        self.items.clear();
        self.tags.clear();
        self.indices.clear();
        self.free_tags.clear();
    }

    /// Number of items stored.
    pub fn len(&self) -> (r: usize)
        ensures
            r == self.items@.len(),
    {
        self.items.len()
    }

    /// True when no item is stored.
    pub fn is_empty(&self) -> (r: bool)
        ensures
            r <==> self.items@.len() == 0,
    {
        self.items.len() == 0
    }

    /// Position in `free_tags` of the smallest free tag, if any.
    fn smallest_free_position(&self) -> (r: Option<usize>)
        requires
            self.wf(),
        ensures
            r is None ==> self.free_tags@.len() == 0,
            r matches Some(k) ==> k < self.free_tags@.len() && self.free_tags@[k as int]
                == first_free(self.indices@),
    {
        if self.free_tags.len() == 0 {
            return None;
        }
        let mut best: usize = 0;
        let mut k: usize = 1;
        while k < self.free_tags.len()
            invariant
                self.wf(),
                1 <= k <= self.free_tags@.len(),
                best < k,
                forall|j: int| 0 <= j < k ==> self.free_tags@[best as int] <= #[trigger] self.free_tags@[j],
            decreases self.free_tags@.len() - k,
        {
            if self.free_tags[k] < self.free_tags[best] {
                best = k;
            }
            k = k + 1;
        }
        proof {
            let m = self.free_tags@[best as int];
            assert forall|u: int| 0 <= u < m implies #[trigger] self.indices@[u] is Some by {
                if self.indices@[u] is None {
                    assert(self.free_tags@.contains(u as usize));
                    let j = choose|j: int| 0 <= j < self.free_tags@.len() && self.free_tags@[j] == u as usize;
                    assert(self.free_tags@[best as int] <= self.free_tags@[j]);
                }
            }
            lemma_first_free_unique(self.indices@, m as int);
        }
        Some(best)
    }

    /// The tag that will be assigned to the next item added: the smallest
    /// free tag, or the number of tags ever handed out when none is free.
    pub fn next_tag(&self) -> (r: usize)
        requires
            self.wf(),
        ensures
            r == self.next_tag_spec(),
    {
        proof {
            lemma_first_free(self.indices@);
        }
        match self.smallest_free_position() {
            Some(k) => self.free_tags[k],
            None => {
                proof {
                    assert forall|u: int| 0 <= u < self.indices@.len() implies #[trigger] self.indices@[u] is Some by {
                        if self.indices@[u] is None {
                            assert(self.free_tags@.contains(u as usize));
                        }
                    }
                    lemma_first_free_unique(self.indices@, self.indices@.len() as int);
                }
                self.indices.len()
            },
        }
    }

    /// Add a new item and return its tag, the smallest tag not in use.
    pub fn push(&mut self, item: T) -> (tag: usize)
        requires
            old(self).wf(),
        ensures
            final(self).wf(),
            tag == old(self).next_tag_spec(),
            tag <= old(self).indices@.len(),
            !old(self).has_tag(tag as int),
            final(self).tag_map() == old(self).tag_map().insert(tag, item),
            forall|t: int| #[trigger] final(self).has_tag(t) == (old(self).has_tag(t) || t == tag),
            forall|t: int| old(self).has_tag(t) ==> #[trigger] final(self).item_of(t) == old(self).item_of(t),
            final(self).item_of(tag as int) == item,
            final(self).items@ == old(self).items@.push(item),
            final(self).tags@ == old(self).tags@.push(tag),
            tag < old(self).indices@.len() ==> final(self).indices@ == old(self).indices@.update(
                tag as int,
                Some(old(self).items@.len() as usize),
            ),
            tag == old(self).indices@.len() ==> final(self).indices@ == old(self).indices@.push(
                Some(old(self).items@.len() as usize),
            ),
    {
        proof {
            lemma_first_free(self.indices@);
        }
        let ghost old_self = *self;
        let pos = self.smallest_free_position();
        let tag = match pos {
            Some(k) => self.free_tags.swap_remove(k),
            None => {
                proof {
                    assert forall|u: int| 0 <= u < self.indices@.len() implies #[trigger] self.indices@[u] is Some by {
                        if self.indices@[u] is None {
                            assert(self.free_tags@.contains(u as usize));
                        }
                    }
                    lemma_first_free_unique(self.indices@, self.indices@.len() as int);
                }
                self.indices.len()
            },
        };
        let index = self.items.len();
        self.items.push(item);
        self.tags.push(tag);
        if tag == self.indices.len() {
            self.indices.push(Some(index));
        } else {
            self.indices.set(tag, Some(index));
        }
        proof {
            let ft = self.free_tags@;
            let oft = old_self.free_tags@;
            assert forall|t: int|
                0 <= t < self.indices@.len() && #[trigger] self.indices@[t] is None
                implies self.free_tags@.contains(t as usize) by {
                assert(t != tag);
                assert(old_self.indices@[t] is None);
                assert(oft.contains(t as usize));
                let j = choose|j: int| 0 <= j < oft.len() && oft[j] == t as usize;
                if let Some(k) = pos {
                    if j == oft.len() - 1 {
                        assert(ft[k as int] == t);
                    } else {
                        assert(j != k);
                        assert(ft[j] == t);
                    }
                } else {
                    assert(ft[j] == t);
                }
            }
            assert forall|k: int| 0 <= k < ft.len() implies {
                &&& #[trigger] ft[k] < self.indices@.len()
                &&& self.indices@[ft[k] as int] is None
            } by {
                if let Some(p) = pos {
                    if k == p {
                        assert(ft[k] == oft[oft.len() - 1]);
                    } else {
                        assert(ft[k] == oft[k]);
                    }
                    assert(ft[k] != tag);
                } else {
                    assert(ft[k] == oft[k]);
                }
            }
            assert(final_map_ok(old_self, *self, tag, item)) by {
                assert forall|t: int| #[trigger] self.has_tag(t) == (old_self.has_tag(t) || t == tag) by {}
                assert forall|t: int| self.has_tag(t) implies #[trigger] self.item_of(t) == (if t == tag { item } else { old_self.item_of(t) }) by {
                    if t != tag {
                        assert(old_self.index_of(t) < old_self.items@.len());
                    }
                }
                assert(self.tag_map() =~= old_self.tag_map().insert(tag, item));
            }
            assert forall|a: int, b: int| 0 <= a < b < ft.len() implies ft[a] != ft[b] by {
                if let Some(p) = pos {
                    let a0 = if a == p { oft.len() - 1 } else { a };
                    let b0 = if b == p { oft.len() - 1 } else { b };
                    assert(ft[a] == oft[a0]);
                    assert(ft[b] == oft[b0]);
                }
            }
        }
        tag
    }

    /// Remove the item at `index`; the last item moves into its place and the
    /// removed tag becomes free.
    pub fn remove(&mut self, index: usize)
        requires
            old(self).wf(),
            index < old(self).items@.len(),
        ensures
            final(self).wf(),
            final(self).items@ == swap_removed(old(self).items@, index as int),
            final(self).tags@ == swap_removed(old(self).tags@, index as int),
            final(self).indices@.len() == old(self).indices@.len(),
            final(self).tag_map() == old(self).tag_map().remove(old(self).tags@[index as int]),
            forall|t: int| #[trigger] final(self).has_tag(t) == (old(self).has_tag(t) && t != old(self).tags@[index as int]),
            forall|t: int| final(self).has_tag(t) ==> #[trigger] final(self).item_of(t) == old(self).item_of(t),
            final(self).indices@[old(self).tags@[index as int] as int] is None,
            index < final(self).items@.len() ==> final(self).indices@[old(self).tags@.last() as int]
                == Some(index),
            forall|t: int|
                0 <= t < old(self).indices@.len() && t != old(self).tags@[index as int] && t
                    != old(self).tags@.last() ==> #[trigger] final(self).indices@[t]
                    == old(self).indices@[t],
    {
        let ghost old_self = *self;
        let removed_tag = self.tags[index];
        self.items.swap_remove(index);
        self.tags.swap_remove(index);
        if index < self.items.len() {
            let replaced_tag = self.tags[index];
            self.indices.set(replaced_tag, Some(index));
        }
        self.indices.set(removed_tag, None);
        self.free_tags.push(removed_tag);
        proof {
            assert forall|t: int|
                0 <= t < self.indices@.len() && #[trigger] self.indices@[t] is Some implies {
                &&& self.indices@[t]->0 < self.tags@.len()
                &&& self.tags@[self.indices@[t]->0 as int] == t
            } by {
                if t != old_self.tags@.last() {
                    let i = old_self.indices@[t]->0 as int;
                    assert(old_self.tags@[i] == t);
                    assert(i != old_self.tags@.len() - 1);
                }
            }
            assert forall|i: int| 0 <= i < self.tags@.len() implies {
                &&& #[trigger] self.tags@[i] < self.indices@.len()
                &&& self.indices@[self.tags@[i] as int] == Some(i as usize)
            } by {
                if i == index {
                    assert(self.tags@[i] == old_self.tags@.last());
                } else {
                    assert(self.tags@[i] == old_self.tags@[i]);
                    assert(old_self.tags@[i] != old_self.tags@.last());
                }
            }
            assert forall|t: int|
                0 <= t < self.indices@.len() && #[trigger] self.indices@[t] is None
                implies self.free_tags@.contains(t as usize) by {
                if t != removed_tag {
                    assert(old_self.indices@[t] is None);
                    let tu = t as usize;
                    assert(old_self.free_tags@.contains(tu));
                    let j = choose|j: int| 0 <= j < old_self.free_tags@.len() && old_self.free_tags@[j] == tu;
                    assert(old_self.free_tags@[j] == tu);
                    assert(self.free_tags@[j] == tu);
                } else {
                    assert(self.free_tags@[self.free_tags@.len() - 1] == t);
                }
            }
            assert forall|t: int| #[trigger] self.has_tag(t) == (old_self.has_tag(t) && t != removed_tag) by {}
            assert forall|t: int| self.has_tag(t) implies #[trigger] self.item_of(t) == old_self.item_of(t) by {
                if t == old_self.tags@.last() && index < self.items@.len() {
                    assert(old_self.index_of(t) == old_self.tags@.len() - 1);
                } else {
                    let i = old_self.index_of(t);
                    assert(old_self.tags@[i] == t);
                    assert(i != old_self.tags@.len() - 1);
                    assert(i != index);
                }
            }
            assert(self.tag_map() =~= old_self.tag_map().remove(removed_tag));
        }
    }

    /// Replace the item at `index`.
    pub fn set_item(&mut self, index: usize, item: T)
        requires
            old(self).wf(),
            index < old(self).items@.len(),
        ensures
            final(self).wf(),
            final(self).items@ == old(self).items@.update(index as int, item),
            forall|t: int| #[trigger] final(self).has_tag(t) == old(self).has_tag(t),
            forall|t: int| final(self).has_tag(t) ==> #[trigger] final(self).item_of(t) == (if t == old(self).tags@[index as int] { item } else { old(self).item_of(t) }),
            final(self).tags@ == old(self).tags@,
            final(self).indices@ == old(self).indices@,
            final(self).free_tags@ == old(self).free_tags@,
    {
        self.items.set(index, item);
        proof {
            assert forall|t: int| self.has_tag(t) implies #[trigger] self.item_of(t) == (if t == self.tags@[index as int] { item } else { old(self).item_of(t) }) by {
                if t != self.tags@[index as int] {
                    assert(self.index_of(t) != index);
                }
            }
        }
    }
}

} // verus!
