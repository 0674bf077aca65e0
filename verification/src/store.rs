//! The staging object store.
//!
//! An object store holding the ephemeral data of multipart-upload
//! sessions. Object names are segment paths (the hierarchy the real
//! store expresses with `/`-delimited names). Listing is delimiter-aware
//! and paginated: one call returns at most a page of results together
//! with a continuation token, and a conclusion about the whole store may
//! only be drawn after every continuation token has been followed.
//!
//! Deleted objects leave a dead entry behind so that entry positions
//! never shift: a continuation token taken before a deletion still means
//! the same position afterwards, the way a real store's cursors survive
//! concurrent deletions.

use vstd::prelude::*;

verus! {

/// One slot of the store: an object, or the tombstone of one.
pub struct StoredObject {
    /// The object's segment path.
    pub name: Vec<String>,
    /// The object's content.
    pub data: Vec<u8>,
    /// False once the object has been deleted.
    pub live: bool,
}

/// `prefix` is a (not necessarily proper) leading run of `name`'s segments.
pub open spec fn seg_prefix_of(prefix: Seq<Seq<char>>, name: Seq<Seq<char>>) -> bool {
    prefix.len() <= name.len() && name.subrange(0, prefix.len() as int) == prefix
}

/// `name` lies strictly below `prefix` in the hierarchy.
pub open spec fn strictly_under(name: Seq<Seq<char>>, prefix: Seq<Seq<char>>) -> bool {
    seg_prefix_of(prefix, name) && name.len() > prefix.len()
}

/// `name` lies exactly one level below `prefix`.
pub open spec fn leaf_under(name: Seq<Seq<char>>, prefix: Seq<Seq<char>>) -> bool {
    seg_prefix_of(prefix, name) && name.len() == prefix.len() + 1
}

/// Every listed item is a live object one level below `p`, found in the
/// scanned range.
pub open spec fn items_sound(
    s: StagingStore,
    p: Seq<Seq<char>>,
    token: int,
    end: int,
    items: Seq<Seq<Seq<char>>>,
) -> bool {
    forall|nm: Seq<Seq<char>>| #![trigger items.contains(nm)]
        items.contains(nm) ==> exists|i: int|
            token <= i < end && s.live_at(i) && leaf_under(#[trigger] s.name_at(i), p)
                && s.name_at(i) == nm
}

/// Every listed sub-prefix is the next segment of a live object lying
/// deeper below `p`, found in the scanned range.
pub open spec fn sub_prefixes_sound(
    s: StagingStore,
    p: Seq<Seq<char>>,
    token: int,
    end: int,
    subs: Seq<Seq<char>>,
) -> bool {
    forall|seg: Seq<char>| #![trigger subs.contains(seg)]
        subs.contains(seg) ==> exists|i: int|
            token <= i < end && s.live_at(i) && strictly_under(#[trigger] s.name_at(i), p)
                && s.name_at(i).len() > p.len() + 1 && s.name_at(i)[p.len() as int] == seg
}

/// A prefix below which nothing is stored lists empty: a page whose
/// results are sound for any prefix extending the cleared one can hold
/// neither items nor sub-prefixes — at any position and any page size.
pub proof fn lemma_cleared_prefix_lists_empty(
    s: StagingStore,
    root: Seq<Seq<char>>,
    p: Seq<Seq<char>>,
    token: int,
    end: int,
    items: Seq<Seq<Seq<char>>>,
    subs: Seq<Seq<char>>,
)
    requires
        forall|i: int|
            0 <= i < s.len() && s.live_at(i) ==> !strictly_under(#[trigger] s.name_at(i), root),
        seg_prefix_of(root, p),
        0 <= token,
        end <= s.len(),
        items_sound(s, p, token, end, items),
        sub_prefixes_sound(s, p, token, end, subs),
    ensures
        items.len() == 0,
        subs.len() == 0,
{
    if items.len() > 0 {
        let nm = items[0];
        assert(items.contains(nm));
        let i = choose|i: int|
            token <= i < end && s.live_at(i) && leaf_under(#[trigger] s.name_at(i), p)
                && s.name_at(i) == nm;
        assert forall|x: int| 0 <= x < root.len() implies s.name_at(i).subrange(
            0,
            root.len() as int,
        )[x] == root[x] by {
            assert(s.name_at(i).subrange(0, p.len() as int)[x] == p[x]);
            assert(p.subrange(0, root.len() as int)[x] == root[x]);
        }
        assert(s.name_at(i).subrange(0, root.len() as int) =~= root);
        assert(strictly_under(s.name_at(i), root));
        assert(false);
    }
    if subs.len() > 0 {
        let seg = subs[0];
        assert(subs.contains(seg));
        let i = choose|i: int|
            token <= i < end && s.live_at(i) && strictly_under(#[trigger] s.name_at(i), p)
                && s.name_at(i).len() > p.len() + 1 && s.name_at(i)[p.len() as int] == seg;
        assert forall|x: int| 0 <= x < root.len() implies s.name_at(i).subrange(
            0,
            root.len() as int,
        )[x] == root[x] by {
            assert(s.name_at(i).subrange(0, p.len() as int)[x] == p[x]);
            assert(p.subrange(0, root.len() as int)[x] == root[x]);
        }
        assert(s.name_at(i).subrange(0, root.len() as int) =~= root);
        assert(strictly_under(s.name_at(i), root));
        assert(false);
    }
}

/// Introduces `items_sound` from an explicit witness table.
proof fn lemma_items_sound_intro(
    s: StagingStore,
    p: Seq<Seq<char>>,
    token: int,
    end: int,
    items: Seq<Seq<Seq<char>>>,
    wit: Seq<int>,
)
    requires
        wit.len() == items.len(),
        forall|j: int|
            0 <= j < wit.len() ==> token <= #[trigger] wit[j] < end && s.live_at(wit[j])
                && leaf_under(s.name_at(wit[j]), p) && s.name_at(wit[j]) == items[j],
    ensures
        items_sound(s, p, token, end, items),
{
    assert forall|nm: Seq<Seq<char>>| #![trigger items.contains(nm)] items.contains(nm)
        implies exists|i: int|
        token <= i < end && s.live_at(i) && leaf_under(#[trigger] s.name_at(i), p) && s.name_at(i)
            == nm by {
        let j = choose|j: int| 0 <= j < items.len() && items[j] == nm;
        let k = wit[j];
        assert(token <= k < end && s.live_at(k) && leaf_under(s.name_at(k), p) && s.name_at(k)
            == nm);
    }
}

/// Introduces `sub_prefixes_sound` from an explicit witness table.
proof fn lemma_sub_prefixes_sound_intro(
    s: StagingStore,
    p: Seq<Seq<char>>,
    token: int,
    end: int,
    subs: Seq<Seq<char>>,
    wit: Seq<int>,
)
    requires
        wit.len() == subs.len(),
        forall|j: int|
            0 <= j < wit.len() ==> token <= #[trigger] wit[j] < end && s.live_at(wit[j])
                && strictly_under(s.name_at(wit[j]), p) && s.name_at(wit[j]).len() > p.len() + 1
                && s.name_at(wit[j])[p.len() as int] == subs[j],
    ensures
        sub_prefixes_sound(s, p, token, end, subs),
{
    assert forall|seg: Seq<char>| #![trigger subs.contains(seg)] subs.contains(seg)
        implies exists|i: int|
        token <= i < end && s.live_at(i) && strictly_under(#[trigger] s.name_at(i), p)
            && s.name_at(i).len() > p.len() + 1 && s.name_at(i)[p.len() as int] == seg by {
        let j = choose|j: int| 0 <= j < subs.len() && subs[j] == seg;
        let k = wit[j];
        assert(token <= k < end && s.live_at(k) && strictly_under(s.name_at(k), p) && s.name_at(
            k,
        ).len() > p.len() + 1 && s.name_at(k)[p.len() as int] == seg);
    }
}

/// One page of a listing.
pub struct ListPage {
    /// Names of objects exactly one level below the listed prefix.
    pub items: Vec<Vec<String>>,
    /// Next segments of objects lying deeper below the listed prefix.
    pub sub_prefixes: Vec<String>,
    /// Where the next page starts; `None` when the scan reached the end.
    pub next_token: Option<usize>,
}

impl ListPage {
    /// The position up to which this page scanned the store.
    pub open spec fn spec_end(self, store_len: int) -> int {
        match self.next_token {
            Some(t) => t as int,
            None => store_len,
        }
    }
}

/// The staging store.
pub struct StagingStore {
    /// The entry log: objects and tombstones of deleted objects.
    pub entries: Vec<StoredObject>,
    /// How many results one listing call returns at most.
    pub page_size: usize,
}

impl StagingStore {
    /// Whether the entry at `i` is a live object.
    pub open spec fn live_at(self, i: int) -> bool {
        self.entries@[i].live
    }

    /// The segment path of the entry at `i`.
    pub open spec fn name_at(self, i: int) -> Seq<Seq<char>> {
        self.entries@[i].name.deep_view()
    }

    /// The content of the entry at `i`.
    pub open spec fn data_at(self, i: int) -> Seq<u8> {
        self.entries@[i].data@
    }

    /// The number of entries, tombstones included.
    pub open spec fn len(self) -> int {
        self.entries@.len() as int
    }

    /// The store's invariant: pages are non-empty, live names are
    /// non-empty paths, and no two live entries share a name.
    pub open spec fn wf(self) -> bool {
        &&& self.page_size >= 1
        &&& forall|i: int|
            0 <= i < self.len() && self.live_at(i) ==> #[trigger] self.name_at(i).len() >= 1
        &&& forall|i: int, j: int|
            0 <= i < j < self.len() && self.live_at(i) && self.live_at(j) ==> self.name_at(i)
                != self.name_at(j)
    }

    /// Whether an object with this name is stored.
    pub open spec fn has_object(self, name: Seq<Seq<char>>) -> bool {
        exists|i: int| 0 <= i < self.len() && self.live_at(i) && #[trigger] self.name_at(i) == name
    }

    /// The index of the live entry with this name.
    pub open spec fn object_index(self, name: Seq<Seq<char>>) -> int {
        choose|i: int| 0 <= i < self.len() && self.live_at(i) && #[trigger] self.name_at(i) == name
    }

    /// The content of the object with this name.
    pub open spec fn object_data(self, name: Seq<Seq<char>>) -> Seq<u8> {
        self.data_at(self.object_index(name))
    }

    /// The store as a map from object name to content.
    pub open spec fn contents(self) -> Map<Seq<Seq<char>>, Seq<u8>> {
        Map::new(|n: Seq<Seq<char>>| self.has_object(n), |n: Seq<Seq<char>>| self.object_data(n))
    }

    /// In a well-formed store, a live entry's index is the index of its
    /// name's object.
    pub proof fn lemma_object_index(self, i: int)
        requires
            self.wf(),
            0 <= i < self.len(),
            self.live_at(i),
        ensures
            self.has_object(self.name_at(i)),
            self.object_index(self.name_at(i)) == i,
            self.object_data(self.name_at(i)) == self.data_at(i),
    {
        assert(self.has_object(self.name_at(i)));
        let j = self.object_index(self.name_at(i));
        if j != i {
            assert(self.name_at(i) != self.name_at(j));
        }
    }

    /// An empty store.
    pub fn new(page_size: usize) -> (r: Self)
        requires
            page_size >= 1,
        ensures
            r.wf(),
            r.len() == 0,
            r.contents() =~= Map::<Seq<Seq<char>>, Seq<u8>>::empty(),
            r.page_size == page_size,
    {
        let r = StagingStore { entries: Vec::new(), page_size };
        proof {
            assert(forall|n: Seq<Seq<char>>| !r.has_object(n));
        }
        r
    }
}

/// A store stays well-formed when entries keep their names and only go
/// dead (data changes are fine too).
proof fn lemma_shape_wf(pre: StagingStore, post: StagingStore)
    requires
        pre.wf(),
        post.page_size == pre.page_size,
        post.len() == pre.len(),
        forall|j: int| 0 <= j < pre.len() ==> post.name_at(j) == pre.name_at(j),
        forall|j: int| 0 <= j < pre.len() && post.live_at(j) ==> pre.live_at(j),
    ensures
        post.wf(),
{
    assert forall|j: int| 0 <= j < post.len() && post.live_at(j) implies #[trigger] post.name_at(
        j,
    ).len() >= 1 by {
        assert(pre.live_at(j));
        assert(pre.name_at(j).len() >= 1);
    }
    assert forall|a: int, b: int|
        0 <= a < b < post.len() && post.live_at(a) && post.live_at(b) implies post.name_at(a)
        != post.name_at(b) by {
        assert(pre.live_at(a) && pre.live_at(b));
    }
}

/// Compares two segment paths.
pub fn segments_eq(a: &Vec<String>, b: &Vec<String>) -> (r: bool)
    ensures
        r == (a.deep_view() == b.deep_view()),
{
    if a.len() != b.len() {
        proof {
            assert(a.deep_view().len() != b.deep_view().len());
        }
        return false;
    }
    let mut i: usize = 0;
    while i < a.len()
        invariant
            a@.len() == b@.len(),
            i <= a@.len(),
            forall|j: int| 0 <= j < i ==> a.deep_view()[j] == b.deep_view()[j],
        decreases a@.len() - i,
    {
        if !a[i].eq(&b[i]) {
            proof {
                assert(a.deep_view()[i as int] != b.deep_view()[i as int]);
            }
            return false;
        }
        proof {
            assert(a.deep_view()[i as int] == b.deep_view()[i as int]);
        }
        i = i + 1;
    }
    proof {
        assert(a.deep_view() =~= b.deep_view());
    }
    true
}

/// Does `prefix` lead `name`, segment by segment?
pub fn segments_prefix_of(prefix: &Vec<String>, name: &Vec<String>) -> (r: bool)
    ensures
        r == seg_prefix_of(prefix.deep_view(), name.deep_view()),
{
    if prefix.len() > name.len() {
        return false;
    }
    let mut i: usize = 0;
    while i < prefix.len()
        invariant
            prefix@.len() <= name@.len(),
            i <= prefix@.len(),
            forall|j: int| 0 <= j < i ==> prefix.deep_view()[j] == name.deep_view()[j],
        decreases prefix@.len() - i,
    {
        if !prefix[i].eq(&name[i]) {
            proof {
                assert(prefix.deep_view()[i as int] != name.deep_view()[i as int]);
                assert(name.deep_view().subrange(0, prefix.deep_view().len() as int)
                    != prefix.deep_view()) by {
                    let sub = name.deep_view().subrange(0, prefix.deep_view().len() as int);
                    assert(sub[i as int] == name.deep_view()[i as int]);
                }
            }
            return false;
        }
        proof {
            assert(prefix.deep_view()[i as int] == name.deep_view()[i as int]);
        }
        i = i + 1;
    }
    proof {
        assert(name.deep_view().subrange(0, prefix.deep_view().len() as int)
            =~= prefix.deep_view());
    }
    true
}

/// Copies a segment path.
pub fn clone_segments(v: &Vec<String>) -> (r: Vec<String>)
    ensures
        r.deep_view() == v.deep_view(),
{
    let mut out: Vec<String> = Vec::new();
    let mut i: usize = 0;
    while i < v.len()
        invariant
            i <= v@.len(),
            out@.len() == i,
            forall|j: int| 0 <= j < i ==> out.deep_view()[j] == v.deep_view()[j],
        decreases v@.len() - i,
    {
        let ghost before = out.deep_view();
        out.push(v[i].clone());
        proof {
            assert(forall|j: int| 0 <= j < before.len() ==> out.deep_view()[j] == before[j]);
            assert(out.deep_view()[i as int] == v.deep_view()[i as int]);
        }
        i = i + 1;
    }
    proof {
        assert(out.deep_view() =~= v.deep_view());
    }
    out
}

impl StagingStore {
    /// Stores an object: the last write for a name wins.
    pub fn upload(&mut self, name: Vec<String>, data: Vec<u8>)
        requires
            old(self).wf(),
            name@.len() >= 1,
        ensures
            final(self).wf(),
            final(self).page_size == old(self).page_size,
            final(self).contents() =~= old(self).contents().insert(name.deep_view(), data@),
            final(self).has_object(name.deep_view()),
            final(self).object_data(name.deep_view()) == data@,
            forall|n: Seq<Seq<char>>|
                n != name.deep_view() ==> final(self).has_object(n) == old(self).has_object(n),
            forall|n: Seq<Seq<char>>|
                n != name.deep_view() && old(self).has_object(n) ==> final(self).object_data(n)
                    == old(self).object_data(n),
    {
        let ghost pre = *self;
        let ghost nm = name.deep_view();
        let ghost d = data@;
        let mut i: usize = 0;
        let n = self.entries.len();
        let mut found: bool = false;
        let mut at: usize = 0;
        while i < n
            invariant_except_break
                !found,
                forall|j: int| 0 <= j < i && self.live_at(j) ==> self.name_at(j) != nm,
            invariant
                *self == pre,
                n == self.len(),
                i <= n,
                nm == name.deep_view(),
            ensures
                *self == pre,
                n == self.len(),
                found ==> at < n && self.live_at(at as int) && self.name_at(at as int) == nm,
                !found ==> forall|j: int|
                    0 <= j < n && self.live_at(j) ==> self.name_at(j) != nm,
            decreases n - i,
        {
            if self.entries[i].live && segments_eq(&self.entries[i].name, &name) {
                found = true;
                at = i;
                break;
            }
            i = i + 1;
        }
        if found {
            self.entries[at].data = data;
            proof {
                assert(forall|j: int|
                    0 <= j < pre.len() && j != at ==> self.entries@[j] == pre.entries@[j]);
                assert forall|j: int| 0 <= j < pre.len() implies #[trigger] self.name_at(j)
                    == pre.name_at(j) && self.live_at(j) == pre.live_at(j) by {
                    if j != at {
                        assert(self.entries@[j] == pre.entries@[j]);
                    }
                }
                lemma_shape_wf(pre, *self);
                assert(self.live_at(at as int));
                assert(self.name_at(at as int) == nm);
                assert(self.data_at(at as int) == d);
                self.lemma_object_index(at as int);
                assert forall|q: Seq<Seq<char>>| q != nm implies self.has_object(q)
                    == pre.has_object(q) by {
                    if pre.has_object(q) {
                        let w = pre.object_index(q);
                        assert(pre.live_at(w) && pre.name_at(w) == q);
                        assert(self.live_at(w) && self.name_at(w) == q);
                        assert(self.has_object(q));
                    }
                    if self.has_object(q) {
                        let w = self.object_index(q);
                        assert(self.live_at(w) && self.name_at(w) == q);
                        assert(pre.live_at(w) && pre.name_at(w) == q);
                        assert(pre.has_object(q));
                    }
                }
                assert forall|q: Seq<Seq<char>>| q != nm && pre.has_object(q) implies
                    self.object_data(q) == pre.object_data(q) by {
                    let w = pre.object_index(q);
                    assert(pre.live_at(w) && pre.name_at(w) == q);
                    assert(w != at);
                    assert(self.data_at(w) == pre.data_at(w));
                    self.lemma_object_index(w);
                    pre.lemma_object_index(w);
                }
                assert(self.contents() =~= pre.contents().insert(nm, d));
            }
        } else {
            let entry = StoredObject { name, data, live: true };
            self.entries.push(entry);
            proof {
                let k = pre.len();
                assert(self.len() == k + 1);
                assert(forall|j: int| 0 <= j < k ==> self.entries@[j] == pre.entries@[j]);
                assert forall|j: int| 0 <= j < k implies #[trigger] self.name_at(j)
                    == pre.name_at(j) && self.live_at(j) == pre.live_at(j) && self.data_at(j)
                    == pre.data_at(j) by {
                    assert(self.entries@[j] == pre.entries@[j]);
                }
                assert(self.live_at(k));
                assert(self.name_at(k) == nm);
                assert(self.data_at(k) == d);
                assert(nm.len() >= 1);
                assert forall|a: int, b: int|
                    0 <= a < b < self.len() && self.live_at(a) && self.live_at(b) implies
                    self.name_at(a) != self.name_at(b) by {
                    if b == k {
                        assert(pre.live_at(a));
                        assert(pre.name_at(a) != nm);
                    } else {
                        assert(pre.live_at(a) && pre.live_at(b));
                    }
                }
                assert(self.wf());
                self.lemma_object_index(k);
                assert forall|q: Seq<Seq<char>>| q != nm implies self.has_object(q)
                    == pre.has_object(q) by {
                    if pre.has_object(q) {
                        let w = pre.object_index(q);
                        assert(pre.live_at(w) && pre.name_at(w) == q);
                        assert(self.live_at(w) && self.name_at(w) == q);
                        assert(self.has_object(q));
                    }
                    if self.has_object(q) {
                        let w = self.object_index(q);
                        assert(self.live_at(w) && self.name_at(w) == q);
                        assert(w != k);
                        assert(pre.live_at(w) && pre.name_at(w) == q);
                        assert(pre.has_object(q));
                    }
                }
                assert forall|q: Seq<Seq<char>>| q != nm && pre.has_object(q) implies
                    self.object_data(q) == pre.object_data(q) by {
                    let w = pre.object_index(q);
                    assert(pre.live_at(w) && pre.name_at(w) == q);
                    assert(w != k);
                    assert(self.data_at(w) == pre.data_at(w));
                    self.lemma_object_index(w);
                    pre.lemma_object_index(w);
                }
                assert(self.contents() =~= pre.contents().insert(nm, d));
            }
        }
    }

    /// Deletes the object with this name; a miss is a no-op.
    ///
    /// Entry positions are preserved: the entry goes dead in place.
    pub fn delete(&mut self, name: &Vec<String>)
        requires
            old(self).wf(),
        ensures
            final(self).wf(),
            final(self).page_size == old(self).page_size,
            final(self).len() == old(self).len(),
            forall|i: int|
                0 <= i < old(self).len() ==> final(self).name_at(i) == old(self).name_at(i)
                    && final(self).data_at(i) == old(self).data_at(i),
            forall|i: int|
                0 <= i < old(self).len() ==> final(self).live_at(i) == (old(self).live_at(i)
                    && old(self).name_at(i) != name.deep_view()),
            final(self).contents() =~= old(self).contents().remove(name.deep_view()),
            !final(self).has_object(name.deep_view()),
            forall|n: Seq<Seq<char>>|
                n != name.deep_view() ==> final(self).has_object(n) == old(self).has_object(n),
            forall|n: Seq<Seq<char>>|
                n != name.deep_view() && old(self).has_object(n) ==> final(self).object_data(n)
                    == old(self).object_data(n),
    {
        let ghost pre = *self;
        let ghost nm = name.deep_view();
        let n = self.entries.len();
        let mut i: usize = 0;
        while i < n
            invariant
                pre.wf(),
                n == self.len(),
                n == pre.len(),
                self.page_size == pre.page_size,
                i <= n,
                forall|j: int|
                    0 <= j < n ==> #[trigger] self.name_at(j) == pre.name_at(j) && self.data_at(j)
                        == pre.data_at(j),
                forall|j: int|
                    0 <= j < i ==> self.live_at(j) == (pre.live_at(j) && pre.name_at(j) != nm),
                forall|j: int| i <= j < n ==> self.live_at(j) == pre.live_at(j),
                nm == name.deep_view(),
            decreases n - i,
        {
            let ghost cur = *self;
            if self.entries[i].live && segments_eq(&self.entries[i].name, name) {
                proof {
                    assert(cur.name_at(i as int) == nm);
                    assert(cur.name_at(i as int) == pre.name_at(i as int));
                }
                self.entries[i].live = false;
                proof {
                    assert(forall|j: int|
                        0 <= j < n && j != i ==> self.entries@[j] == cur.entries@[j]);
                    assert(self.entries@[i as int].name == cur.entries@[i as int].name);
                    assert(self.entries@[i as int].data == cur.entries@[i as int].data);
                    assert(!self.live_at(i as int));
                    assert(cur.name_at(i as int) == nm);
                    assert forall|j: int| 0 <= j < n implies #[trigger] self.name_at(j)
                        == pre.name_at(j) && self.data_at(j) == pre.data_at(j) by {
                        if j != i {
                            assert(self.entries@[j] == cur.entries@[j]);
                        }
                        assert(cur.name_at(j) == pre.name_at(j));
                        assert(cur.data_at(j) == pre.data_at(j));
                    }
                }
            } else {
                proof {
                    if self.entries@[i as int].live {
                        assert(self.name_at(i as int) != nm);
                        assert(pre.name_at(i as int) != nm);
                    }
                }
            }
            i = i + 1;
        }
        proof {
            assert forall|j: int| 0 <= j < pre.len() implies #[trigger] self.live_at(j) == (
            pre.live_at(j) && pre.name_at(j) != nm) by {}
            lemma_shape_wf(pre, *self);
            if self.has_object(nm) {
                let w = self.object_index(nm);
                assert(self.live_at(w) && self.name_at(w) == nm);
                assert(self.name_at(w) == pre.name_at(w));
                assert(self.live_at(w) == (pre.live_at(w) && pre.name_at(w) != nm));
                assert(false);
            }
            assert forall|q: Seq<Seq<char>>| q != nm implies self.has_object(q) == pre.has_object(
                q,
            ) by {
                if pre.has_object(q) {
                    let w = pre.object_index(q);
                    assert(pre.live_at(w) && pre.name_at(w) == q);
                    assert(self.live_at(w) && self.name_at(w) == q);
                    assert(self.has_object(q));
                }
                if self.has_object(q) {
                    let w = self.object_index(q);
                    assert(self.live_at(w) && self.name_at(w) == q);
                    assert(pre.live_at(w) && pre.name_at(w) == q);
                    assert(pre.has_object(q));
                }
            }
            assert forall|q: Seq<Seq<char>>| q != nm && pre.has_object(q) implies self.object_data(
                q,
            ) == pre.object_data(q) by {
                let w = pre.object_index(q);
                assert(pre.live_at(w) && pre.name_at(w) == q);
                assert(self.live_at(w) && self.name_at(w) == q);
                assert(self.data_at(w) == pre.data_at(w));
                self.lemma_object_index(w);
                pre.lemma_object_index(w);
            }
            assert(self.contents() =~= pre.contents().remove(nm));
        }
    }

    /// Fetches an object's content by name.
    pub fn get(&self, name: &Vec<String>) -> (r: Option<&Vec<u8>>)
        requires
            self.wf(),
        ensures
            match r {
                Some(d) => self.has_object(name.deep_view()) && d@ == self.object_data(
                    name.deep_view(),
                ),
                None => !self.has_object(name.deep_view()),
            },
    {
        let n = self.entries.len();
        let mut i: usize = 0;
        while i < n
            invariant
                self.wf(),
                n == self.len(),
                i <= n,
                forall|j: int|
                    0 <= j < i && self.live_at(j) ==> self.name_at(j) != name.deep_view(),
            decreases n - i,
        {
            if self.entries[i].live && segments_eq(&self.entries[i].name, name) {
                proof {
                    self.lemma_object_index(i as int);
                }
                return Some(&self.entries[i].data);
            }
            i = i + 1;
        }
        proof {
            if self.has_object(name.deep_view()) {
                let w = self.object_index(name.deep_view());
                assert(self.live_at(w));
                assert(false);
            }
        }
        None
    }

    /// Lists one page of the hierarchy below `prefix`, starting at
    /// `token`.
    ///
    /// Objects exactly one level below the prefix come back in `items`;
    /// objects deeper below it contribute their next segment to
    /// `sub_prefixes`. The page covers the entry positions from `token`
    /// up to the page's end; a caller has seen everything below the
    /// prefix only once a page comes back with no continuation token.
    pub fn list(&self, prefix: &Vec<String>, token: usize) -> (r: ListPage)
        requires
            self.wf(),
            token <= self.len(),
        ensures
            ({
                let p = prefix.deep_view();
                let end = r.spec_end(self.len());
                &&& token <= end <= self.len()
                &&& (token < self.len() ==> end > token)
                &&& (r.next_token is Some ==> token < end < self.len())
                &&& forall|i: int|
                    token <= i < end && self.live_at(i) && leaf_under(#[trigger] self.name_at(i), p)
                        ==> r.items.deep_view().contains(self.name_at(i))
                &&& forall|i: int|
                    token <= i < end && self.live_at(i) && strictly_under(
                        #[trigger] self.name_at(i),
                        p,
                    ) && self.name_at(i).len() > p.len() + 1 ==> r.sub_prefixes.deep_view()
                        .contains(self.name_at(i)[p.len() as int])
                &&& items_sound(*self, p, token as int, end, r.items.deep_view())
                &&& sub_prefixes_sound(*self, p, token as int, end, r.sub_prefixes.deep_view())
                &&& r.items.deep_view().len() + r.sub_prefixes.deep_view().len() <= end - token
            }),
    {
        let ghost p = prefix.deep_view();
        let n = self.entries.len();
        let mut items: Vec<Vec<String>> = Vec::new();
        let mut sub_prefixes: Vec<String> = Vec::new();
        let ghost mut wit_items: Seq<int> = Seq::empty();
        let ghost mut wit_subs: Seq<int> = Seq::empty();
        let mut matched: usize = 0;
        let mut i: usize = token;
        while i < n && matched < self.page_size
            invariant
                self.wf(),
                n == self.len(),
                token <= i <= n,
                matched == items.deep_view().len() + sub_prefixes.deep_view().len(),
                matched <= i - token,
                p == prefix.deep_view(),
                forall|k: int|
                    token <= k < i && self.live_at(k) && leaf_under(#[trigger] self.name_at(k), p)
                        ==> items.deep_view().contains(self.name_at(k)),
                forall|k: int|
                    token <= k < i && self.live_at(k) && strictly_under(
                        #[trigger] self.name_at(k),
                        p,
                    ) && self.name_at(k).len() > p.len() + 1 ==> sub_prefixes.deep_view().contains(
                        self.name_at(k)[p.len() as int],
                    ),
                wit_items.len() == items.deep_view().len(),
                forall|j: int|
                    0 <= j < wit_items.len() ==> token <= #[trigger] wit_items[j] < i
                        && self.live_at(wit_items[j]) && leaf_under(self.name_at(wit_items[j]), p)
                        && self.name_at(wit_items[j]) == items.deep_view()[j],
                wit_subs.len() == sub_prefixes.deep_view().len(),
                forall|j: int|
                    0 <= j < wit_subs.len() ==> token <= #[trigger] wit_subs[j] < i
                        && self.live_at(wit_subs[j]) && strictly_under(
                        self.name_at(wit_subs[j]),
                        p,
                    ) && self.name_at(wit_subs[j]).len() > p.len() + 1 && self.name_at(
                        wit_subs[j],
                    )[p.len() as int] == sub_prefixes.deep_view()[j],
            decreases n - i,
        {
            let ghost items_before = items.deep_view();
            let ghost subs_before = sub_prefixes.deep_view();
            if self.entries[i].live && self.entries[i].name.len() > prefix.len()
                && segments_prefix_of(prefix, &self.entries[i].name) {
                if self.entries[i].name.len() == prefix.len() + 1 {
                    let item = clone_segments(&self.entries[i].name);
                    items.push(item);
                    proof {
                        wit_items = wit_items.push(i as int);
                        assert(items.deep_view().len() == items_before.len() + 1);
                        assert(forall|j: int|
                            0 <= j < items_before.len() ==> #[trigger] items.deep_view()[j]
                                == items_before[j]);
                        assert(items.deep_view()[items_before.len() as int] == self.name_at(
                            i as int,
                        ));
                        assert forall|k: int|
                            token <= k < i + 1 && self.live_at(k) && leaf_under(
                                #[trigger] self.name_at(k),
                                p,
                            ) implies items.deep_view().contains(self.name_at(k)) by {
                            if k < i {
                                let j = choose|j: int|
                                    0 <= j < items_before.len() && items_before[j] == self.name_at(
                                        k,
                                    );
                                assert(items.deep_view()[j] == self.name_at(k));
                            } else {
                                assert(items.deep_view()[items_before.len() as int]
                                    == self.name_at(k));
                            }
                        }
                    }
                } else {
                    let seg = self.entries[i].name[prefix.len()].clone();
                    proof {
                        assert(seg@ == self.name_at(i as int)[p.len() as int]);
                    }
                    sub_prefixes.push(seg);
                    proof {
                        wit_subs = wit_subs.push(i as int);
                        assert(sub_prefixes.deep_view().len() == subs_before.len() + 1);
                        assert(forall|j: int|
                            0 <= j < subs_before.len() ==> #[trigger] sub_prefixes.deep_view()[j]
                                == subs_before[j]);
                        assert(sub_prefixes.deep_view()[subs_before.len() as int] == self.name_at(
                            i as int,
                        )[p.len() as int]);
                        assert forall|k: int|
                            token <= k < i + 1 && self.live_at(k) && strictly_under(
                                #[trigger] self.name_at(k),
                                p,
                            ) && self.name_at(k).len() > p.len() + 1 implies sub_prefixes
                            .deep_view().contains(self.name_at(k)[p.len() as int]) by {
                            if k < i {
                                let j = choose|j: int|
                                    0 <= j < subs_before.len() && subs_before[j] == self.name_at(
                                        k,
                                    )[p.len() as int];
                                assert(sub_prefixes.deep_view()[j] == self.name_at(k)[
                                    p.len() as int
                                ]);
                            } else {
                                assert(sub_prefixes.deep_view()[subs_before.len() as int]
                                    == self.name_at(k)[p.len() as int]);
                            }
                        }
                    }
                }
                matched = matched + 1;
            } else {
                proof {
                    assert(!(self.live_at(i as int) && strictly_under(self.name_at(i as int), p)));
                }
            }
            i = i + 1;
        }
        let next_token = if i < n {
            Some(i)
        } else {
            None
        };
        let r = ListPage { items, sub_prefixes, next_token };
        proof {
            let r_end: int = r.spec_end(self.len());
            assert(r_end == if i < n { i as int } else { n as int });
            lemma_items_sound_intro(*self, p, token as int, r_end, r.items.deep_view(), wit_items);
            lemma_sub_prefixes_sound_intro(
                *self,
                p,
                token as int,
                r_end,
                r.sub_prefixes.deep_view(),
                wit_subs,
            );
        }
        r
    }
}

} // verus!
