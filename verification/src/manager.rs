//! The multipart upload manager.
//!
//! Orchestrates the full session lifecycle over the staging store: a
//! session is created by writing a marker object, grows by part uploads,
//! and ends in exactly one of completion, abort, or a sweep-driven
//! expiry. A session is represented entirely by the staging objects below
//! its upload root; it has no record of its own.

use vstd::prelude::*;
use crate::errors::GatewayError;
use crate::paths::{SafeString, upload_root, root_of, dec_string, dec_str};
use crate::store::{StagingStore, seg_prefix_of, strictly_under, leaf_under};
use crate::timefmt::{marker_body, marker_ts, render_marker};

verus! {

/// The segment path of a session's upload root.
pub open spec fn root_path(root: Seq<char>) -> Seq<Seq<char>> {
    seq![root]
}

/// The segment path of one part object of a session.
pub open spec fn part_path(root: Seq<char>, n: int) -> Seq<Seq<char>> {
    seq![root, dec_str(n)]
}

/// The segment path of a session's marker object.
pub open spec fn marker_path(root: Seq<char>) -> Seq<Seq<char>> {
    seq![root, "marker"@]
}

/// Whether any staging object of this session exists.
pub open spec fn session_present(s: StagingStore, root: Seq<char>) -> bool {
    exists|i: int|
        0 <= i < s.len() && s.live_at(i) && #[trigger] strictly_under(
            s.name_at(i),
            root_path(root),
        )
}

/// Session subtrees never overlap: a staging object lies below at most
/// one upload root. With `lemma_root_distinct`, distinct (bucket, key,
/// upload id) triples therefore never share or shadow staging objects.
pub proof fn lemma_session_subtrees_disjoint(nm: Seq<Seq<char>>, r1: Seq<char>, r2: Seq<char>)
    requires
        strictly_under(nm, root_path(r1)),
        strictly_under(nm, root_path(r2)),
    ensures
        r1 == r2,
{
    assert(nm.subrange(0, 1)[0] == root_path(r1)[0]);
    assert(nm.subrange(0, 1)[0] == root_path(r2)[0]);
}

/// A stored marker proves the session exists: the marker object lies
/// strictly below the session's root, so an existence check finds it.
pub proof fn lemma_marker_makes_session_present(s: StagingStore, root: Seq<char>)
    requires
        s.has_object(marker_path(root)),
    ensures
        session_present(s, root),
{
    let i = choose|i: int|
        0 <= i < s.len() && s.live_at(i) && #[trigger] s.name_at(i) == marker_path(root);
    assert(s.name_at(i).subrange(0, 1) =~= root_path(root));
    assert(strictly_under(s.name_at(i), root_path(root)));
}

/// Builds the one-segment name of a session's upload root.
fn root_name(root: &String) -> (r: Vec<String>)
    ensures
        r.deep_view() == root_path(root@),
        r@.len() == 1,
{
    let mut v: Vec<String> = Vec::new();
    v.push(root.clone());
    proof {
        assert(v.deep_view() =~= root_path(root@));
    }
    v
}

/// Builds the name of one part object.
fn part_name(root: &String, n: u32) -> (r: Vec<String>)
    ensures
        r.deep_view() == part_path(root@, n as int),
        r@.len() == 2,
{
    let mut v: Vec<String> = Vec::new();
    v.push(root.clone());
    v.push(dec_string(n));
    proof {
        assert(v.deep_view() =~= part_path(root@, n as int));
    }
    v
}

/// Builds the name of a session's marker object.
fn marker_name(root: &String) -> (r: Vec<String>)
    ensures
        r.deep_view() == marker_path(root@),
        r@.len() == 2,
{
    let mut v: Vec<String> = Vec::new();
    v.push(root.clone());
    v.push(String::from_str("marker"));
    proof {
        assert(v.deep_view() =~= marker_path(root@));
    }
    v
}

/// The multipart upload manager over a staging store.
pub struct CloudStorageForMultipartConstruction {
    /// The staging store holding every session's marker and parts.
    pub store: StagingStore,
}

impl CloudStorageForMultipartConstruction {
    /// The manager's invariant: its staging store is well-formed.
    pub open spec fn wf(self) -> bool {
        self.store.wf()
    }

    /// A manager over an empty staging store.
    pub fn new(page_size: usize) -> (r: Self)
        requires
            page_size >= 1,
        ensures
            r.wf(),
            r.store.len() == 0,
            r.store.contents() =~= Map::<Seq<Seq<char>>, Seq<u8>>::empty(),
    {
        CloudStorageForMultipartConstruction { store: StagingStore::new(page_size) }
    }

    /// A manager over an existing staging store.
    pub fn with_store(store: StagingStore) -> (r: Self)
        requires
            store.wf(),
        ensures
            r.wf(),
            r.store == store,
    {
        CloudStorageForMultipartConstruction { store }
    }

    /// Creates a session: writes its marker object, holding the creation
    /// time as sortable timestamp text. No part objects are created.
    /// Calling it again for the same triple overwrites the marker, so
    /// creation is idempotent.
    pub fn create_multipart_upload_folder(
        &mut self,
        bucket: &SafeString,
        key: &SafeString,
        upload_id: &SafeString,
        now: i64,
    ) -> (r: Result<(), GatewayError>)
        requires
            old(self).wf(),
            0 <= now < 100000000000i64,
        ensures
            final(self).wf(),
            r is Ok,
            ({
                let root = root_of(bucket@, key@, upload_id@);
                &&& final(self).store.contents() =~= old(self).store.contents().insert(
                    marker_path(root),
                    marker_body(now),
                )
                &&& marker_ts(marker_body(now)) == Some(now)
            }),
    {
        let root = upload_root(bucket, key, upload_id);
        let body = match render_marker(now) {
            Some(b) => b,
            None => {
                proof {
                    assert(false);
                }
                return Err(GatewayError::InternalError);
            },
        };
        let name = marker_name(&root);
        self.store.upload(name, body);
        Ok(())
    }

    /// Writes one part object, overwriting any earlier content for that
    /// part number. The session's existence and the part number's range
    /// are the caller's to check.
    pub fn put_upload_part(
        &mut self,
        bucket: &SafeString,
        key: &SafeString,
        upload_id: &SafeString,
        part_number: u32,
        data: Vec<u8>,
    ) -> (r: Result<(), GatewayError>)
        requires
            old(self).wf(),
        ensures
            final(self).wf(),
            r is Ok,
            final(self).store.contents() =~= old(self).store.contents().insert(
                part_path(root_of(bucket@, key@, upload_id@), part_number as int),
                data@,
            ),
    {
        let root = upload_root(bucket, key, upload_id);
        let name = part_name(&root, part_number);
        self.store.upload(name, data);
        Ok(())
    }

    /// Writes one part object; the same operation as `put_upload_part`.
    pub fn upload_part(
        &mut self,
        bucket: &SafeString,
        key: &SafeString,
        upload_id: &SafeString,
        part_number: u32,
        data: Vec<u8>,
    ) -> (r: Result<(), GatewayError>)
        requires
            old(self).wf(),
        ensures
            final(self).wf(),
            r is Ok,
            final(self).store.contents() =~= old(self).store.contents().insert(
                part_path(root_of(bucket@, key@, upload_id@), part_number as int),
                data@,
            ),
    {
        self.put_upload_part(bucket, key, upload_id, part_number, data)
    }

    /// Whether the session exists: lists the staging store below the
    /// session's root, following every continuation token before
    /// concluding absence.
    pub fn check_upload_exists(
        &self,
        bucket: &SafeString,
        key: &SafeString,
        upload_id: &SafeString,
    ) -> (r: Result<bool, GatewayError>)
        requires
            self.wf(),
        ensures
            r == Result::<bool, GatewayError>::Ok(
                session_present(self.store, root_of(bucket@, key@, upload_id@)),
            ),
    {
        let root = upload_root(bucket, key, upload_id);
        let name = root_name(&root);
        let ghost rootv = root_path(root@);
        let mut token: usize = 0;
        loop
            invariant
                self.wf(),
                token <= self.store.len(),
                name.deep_view() == rootv,
                root@ == root_of(bucket@, key@, upload_id@),
                rootv == root_path(root@),
                forall|i: int|
                    0 <= i < token && self.store.live_at(i) ==> !strictly_under(
                        #[trigger] self.store.name_at(i),
                        rootv,
                    ),
            decreases self.store.len() - token,
        {
            let page = self.store.list(&name, token);
            if page.items.len() > 0 {
                proof {
                    let nm = page.items.deep_view()[0];
                    assert(page.items.deep_view().contains(nm));
                    let w = choose|i: int|
                        token <= i < page.spec_end(self.store.len()) && self.store.live_at(i)
                            && leaf_under(#[trigger] self.store.name_at(i), rootv)
                            && self.store.name_at(i) == nm;
                    assert(strictly_under(self.store.name_at(w), root_path(root@)));
                    assert(session_present(self.store, root@));
                }
                return Ok(true);
            }
            if page.sub_prefixes.len() > 0 {
                proof {
                    let seg = page.sub_prefixes.deep_view()[0];
                    assert(page.sub_prefixes.deep_view().contains(seg));
                    let w = choose|i: int|
                        token <= i < page.spec_end(self.store.len()) && self.store.live_at(i)
                            && strictly_under(#[trigger] self.store.name_at(i), rootv)
                            && self.store.name_at(i).len() > rootv.len() + 1
                            && self.store.name_at(i)[rootv.len() as int] == seg;
                    assert(strictly_under(self.store.name_at(w), root_path(root@)));
                    assert(session_present(self.store, root@));
                }
                return Ok(true);
            }
            proof {
                let end = page.spec_end(self.store.len());
                assert forall|i: int|
                    0 <= i < end && self.store.live_at(i) implies !strictly_under(
                    #[trigger] self.store.name_at(i),
                    rootv,
                ) by {
                    if token <= i < end && strictly_under(self.store.name_at(i), rootv) {
                        if self.store.name_at(i).len() == rootv.len() + 1 {
                            assert(leaf_under(self.store.name_at(i), rootv));
                            assert(page.items.deep_view().contains(self.store.name_at(i)));
                            assert(page.items.deep_view().len() == 0);
                        } else {
                            assert(page.sub_prefixes.deep_view().contains(
                                self.store.name_at(i)[rootv.len() as int],
                            ));
                            assert(page.sub_prefixes.deep_view().len() == 0);
                        }
                    }
                }
            }
            match page.next_token {
                Some(t) => {
                    token = t;
                },
                None => {
                    proof {
                        if session_present(self.store, root@) {
                            let w = choose|i: int|
                                0 <= i < self.store.len() && self.store.live_at(i)
                                    && #[trigger] strictly_under(
                                    self.store.name_at(i),
                                    root_path(root@),
                                );
                            assert(!strictly_under(self.store.name_at(w), rootv));
                            assert(false);
                        }
                    }
                    return Ok(false);
                },
            }
        }
    }
}


/// A name strictly below `q` is strictly below any leading run of `q`.
proof fn lemma_under_prefix_trans(nm: Seq<Seq<char>>, q: Seq<Seq<char>>, root: Seq<Seq<char>>)
    requires
        strictly_under(nm, q),
        seg_prefix_of(root, q),
    ensures
        strictly_under(nm, root),
{
    assert forall|x: int| 0 <= x < root.len() implies nm.subrange(0, root.len() as int)[x]
        == root[x] by {
        assert(nm.subrange(0, q.len() as int)[x] == q[x]);
        assert(q.subrange(0, root.len() as int)[x] == root[x]);
    }
    assert(nm.subrange(0, root.len() as int) =~= root);
}

/// The longest name among the store's entries, dead ones included.
/// Names never change, so this is a constant of any run over one store.
pub open spec fn names_max_len(entries: Seq<crate::store::StoredObject>) -> nat
    decreases entries.len(),
{
    if entries.len() == 0 {
        0
    } else {
        let rest = names_max_len(entries.drop_last());
        let last = entries.last().name.deep_view().len();
        if last > rest {
            last
        } else {
            rest
        }
    }
}

/// No entry's name is longer than the maximum.
proof fn lemma_names_max_bound(entries: Seq<crate::store::StoredObject>, i: int)
    requires
        0 <= i < entries.len(),
    ensures
        entries[i].name.deep_view().len() <= names_max_len(entries),
    decreases entries.len(),
{
    if i == entries.len() - 1 {
        assert(entries.last() == entries[i]);
    } else {
        lemma_names_max_bound(entries.drop_last(), i);
        assert(entries.drop_last()[i] == entries[i]);
    }
}

/// How heavily a prefix weighs on the work list: shallower prefixes can
/// spawn more work, so they weigh exponentially more.
pub open spec fn prefix_expo(q: Seq<Seq<char>>, dmax: nat) -> nat {
    if q.len() >= dmax {
        0
    } else {
        (dmax - q.len()) as nat
    }
}

/// The work-list termination measure.
pub open spec fn wl_measure(wl: Seq<Seq<Seq<char>>>, base: int, dmax: nat) -> int
    decreases wl.len(),
{
    if wl.len() == 0 {
        0
    } else {
        wl_measure(wl.drop_last(), base, dmax) + vstd::arithmetic::power::pow(
            base,
            prefix_expo(wl.last(), dmax),
        )
    }
}

/// Pushing a prefix adds exactly its own weight.
proof fn lemma_wl_measure_push(wl: Seq<Seq<Seq<char>>>, x: Seq<Seq<char>>, base: int, dmax: nat)
    ensures
        wl_measure(wl.push(x), base, dmax) == wl_measure(wl, base, dmax)
            + vstd::arithmetic::power::pow(base, prefix_expo(x, dmax)),
{
    assert(wl.push(x).drop_last() =~= wl);
    assert(wl.push(x).last() == x);
}

/// The measure never goes negative.
proof fn lemma_wl_measure_nonneg(wl: Seq<Seq<Seq<char>>>, base: int, dmax: nat)
    requires
        base >= 1,
    ensures
        wl_measure(wl, base, dmax) >= 0,
    decreases wl.len(),
{
    if wl.len() > 0 {
        lemma_wl_measure_nonneg(wl.drop_last(), base, dmax);
        vstd::arithmetic::power::lemma_pow_positive(base, prefix_expo(wl.last(), dmax));
    }
}

/// `s` has the same entry log as `pre`: same length, names and data.
pub open spec fn same_objects(pre: StagingStore, s: StagingStore) -> bool {
    &&& s.page_size == pre.page_size
    &&& s.len() == pre.len()
    &&& forall|i: int|
        0 <= i < pre.len() ==> #[trigger] s.name_at(i) == pre.name_at(i) && s.data_at(i)
            == pre.data_at(i)
}

/// Every entry live in `s` was live in `pre`: deletion only.
pub open spec fn live_shrunk(pre: StagingStore, s: StagingStore) -> bool {
    forall|i: int| 0 <= i < pre.len() && #[trigger] s.live_at(i) ==> pre.live_at(i)
}

/// Everything outside `root` that was live in `pre` is still live in `s`.
pub open spec fn outside_preserved(
    pre: StagingStore,
    s: StagingStore,
    root: Seq<Seq<char>>,
) -> bool {
    forall|i: int|
        0 <= i < pre.len() && pre.live_at(i) && !strictly_under(#[trigger] pre.name_at(i), root)
            ==> s.live_at(i)
}

/// Every prefix on the work list extends the root prefix.
pub open spec fn worklist_rooted(root: Seq<Seq<char>>, wl: Seq<Seq<Seq<char>>>) -> bool {
    forall|k: int| 0 <= k < wl.len() ==> seg_prefix_of(root, #[trigger] wl[k])
}

/// Every live object below `root` lies below some prefix on the work
/// list.
pub open spec fn covered_by_worklist(
    s: StagingStore,
    root: Seq<Seq<char>>,
    wl: Seq<Seq<Seq<char>>>,
) -> bool {
    forall|i: int| #![trigger s.live_at(i)]
        0 <= i < s.len() && s.live_at(i) && strictly_under(s.name_at(i), root) ==> exists|
            q: Seq<Seq<char>>,
        |
            #[trigger] wl.contains(q) && strictly_under(s.name_at(i), q)
}

/// Every live object below `root` lies below some prefix on the work
/// list, or below the prefix in hand at a position the scan has not
/// reached yet.
pub open spec fn covered_or_after(
    s: StagingStore,
    root: Seq<Seq<char>>,
    wl: Seq<Seq<Seq<char>>>,
    cur: Seq<Seq<char>>,
    token: int,
) -> bool {
    forall|i: int| #![trigger s.live_at(i)]
        0 <= i < s.len() && s.live_at(i) && strictly_under(s.name_at(i), root) ==> (strictly_under(
            s.name_at(i),
            cur,
        ) && i >= token) || exists|q: Seq<Seq<char>>|
            #[trigger] wl.contains(q) && strictly_under(s.name_at(i), q)
}

/// Popping a prefix from the work list moves its coverage duty to the
/// fresh scan of that prefix.
proof fn lemma_pop_coverage(
    s: StagingStore,
    root: Seq<Seq<char>>,
    wl_old: Seq<Seq<Seq<char>>>,
    wl_new: Seq<Seq<Seq<char>>>,
    cur: Seq<Seq<char>>,
)
    requires
        covered_by_worklist(s, root, wl_old),
        wl_old == wl_new.push(cur),
    ensures
        covered_or_after(s, root, wl_new, cur, 0),
{
    assert forall|i: int|
        0 <= i < s.len() && #[trigger] s.live_at(i) && strictly_under(s.name_at(i), root) implies (
    strictly_under(s.name_at(i), cur) && i >= 0) || exists|q: Seq<Seq<char>>|
        #[trigger] wl_new.contains(q) && strictly_under(s.name_at(i), q) by {
        let q0 = choose|q: Seq<Seq<char>>|
            #[trigger] wl_old.contains(q) && strictly_under(s.name_at(i), q);
        if !strictly_under(s.name_at(i), cur) {
            assert(q0 != cur);
            let k = choose|k: int| 0 <= k < wl_old.len() && wl_old[k] == q0;
            assert(k < wl_new.len());
            assert(wl_new[k] == q0);
            assert(wl_new.contains(q0));
        }
    }
}

impl CloudStorageForMultipartConstruction {
    /// Removes every staging object below a prefix.
    ///
    /// The deletion is iterative, not recursive, so hierarchies of any
    /// fan-out are handled without unbounded call depth: a work list of
    /// prefixes starts with the root prefix; each popped prefix is listed
    /// page by page, its sub-prefixes go back on the work list, and its
    /// leaf objects are deleted at once. When the work list runs dry, no
    /// live object below the prefix remains — and so nothing below it is
    /// listable, which `crate::store::lemma_cleared_prefix_lists_empty`
    /// states for any later page at any page size; everything outside the
    /// prefix is untouched.
    pub fn rm_rf(&mut self, root_prefix: Vec<String>) -> (r: Result<(), GatewayError>)
        requires
            old(self).wf(),
        ensures
            final(self).wf(),
            r is Ok,
            same_objects(old(self).store, final(self).store),
            live_shrunk(old(self).store, final(self).store),
            outside_preserved(old(self).store, final(self).store, root_prefix.deep_view()),
            forall|i: int|
                0 <= i < final(self).store.len() && final(self).store.live_at(i)
                    ==> !strictly_under(
                    final(self).store.name_at(i),
                    root_prefix.deep_view(),
                ),
    {
        let ghost pre = self.store;
        let ghost rootv = root_prefix.deep_view();
        let ghost bb: int = pre.len() + 1;
        let ghost dd: nat = names_max_len(pre.entries@);
        let mut worklist: Vec<Vec<String>> = Vec::new();
        worklist.push(root_prefix);
        proof {
            assert(worklist.deep_view() =~= Seq::<Seq<Seq<char>>>::empty().push(rootv));
            assert(worklist.deep_view()[0] == rootv);
            assert(worklist.deep_view().contains(rootv));
            assert(rootv.subrange(0, rootv.len() as int) =~= rootv);
            assert(seg_prefix_of(rootv, rootv));
            assert(worklist_rooted(rootv, worklist.deep_view()));
            assert forall|i: int|
                0 <= i < self.store.len() && #[trigger] self.store.live_at(i) && strictly_under(
                    self.store.name_at(i),
                    rootv,
                ) implies exists|q: Seq<Seq<char>>|
                #[trigger] worklist.deep_view().contains(q) && strictly_under(
                    self.store.name_at(i),
                    q,
                ) by {
                assert(worklist.deep_view().contains(rootv) && strictly_under(
                    self.store.name_at(i),
                    rootv,
                ));
            }
            lemma_wl_measure_nonneg(worklist.deep_view(), bb, dd);
        }
        while worklist.len() > 0
            invariant
                self.store.wf(),
                bb == pre.len() + 1,
                dd == names_max_len(pre.entries@),
                same_objects(pre, self.store),
                live_shrunk(pre, self.store),
                outside_preserved(pre, self.store, rootv),
                worklist_rooted(rootv, worklist.deep_view()),
                covered_by_worklist(self.store, rootv, worklist.deep_view()),
                wl_measure(worklist.deep_view(), bb, dd) >= 0,
            decreases wl_measure(worklist.deep_view(), bb, dd),
        {
            let ghost m_start = wl_measure(worklist.deep_view(), bb, dd);
            let ghost wl_before_pop = worklist.deep_view();
            let prefix = match worklist.pop() {
                Some(p) => p,
                None => {
                    proof {
                        assert(false);
                    }
                    return Err(GatewayError::InternalError);
                },
            };
            let ghost curv = prefix.deep_view();
            let ghost expo_cur = prefix_expo(curv, dd);
            let ghost child_e: nat = if curv.len() + 1 >= dd {
                0nat
            } else {
                (dd - curv.len() - 1) as nat
            };
            proof {
                assert(wl_before_pop[wl_before_pop.len() - 1] == curv);
                assert(wl_before_pop =~= worklist.deep_view().push(curv));
                lemma_pop_coverage(self.store, rootv, wl_before_pop, worklist.deep_view(), curv);
                assert(seg_prefix_of(rootv, curv));
                assert forall|k: int|
                    0 <= k < worklist.deep_view().len() implies seg_prefix_of(
                    rootv,
                    #[trigger] worklist.deep_view()[k],
                ) by {
                    assert(worklist.deep_view()[k] == wl_before_pop[k]);
                    assert(seg_prefix_of(rootv, wl_before_pop[k]));
                }
                assert(worklist_rooted(rootv, worklist.deep_view()));
                lemma_wl_measure_push(worklist.deep_view(), curv, bb, dd);
                assert(wl_measure(worklist.deep_view(), bb, dd) == m_start
                    - vstd::arithmetic::power::pow(bb, expo_cur));
            }
            let ghost mut any_pushed: bool = false;
            let mut token: usize = 0;
            loop
                invariant_except_break
                    !any_pushed ==> wl_measure(worklist.deep_view(), bb, dd) == m_start
                        - vstd::arithmetic::power::pow(bb, expo_cur),
                    any_pushed ==> wl_measure(worklist.deep_view(), bb, dd) <= m_start
                        - vstd::arithmetic::power::pow(bb, expo_cur) + (token as int)
                        * vstd::arithmetic::power::pow(bb, child_e) && curv.len() + 2 <= dd,
                invariant
                    self.store.wf(),
                    token <= self.store.len(),
                    bb == pre.len() + 1,
                    dd == names_max_len(pre.entries@),
                    expo_cur == prefix_expo(curv, dd),
                    child_e == if curv.len() + 1 >= dd {
                        0nat
                    } else {
                        (dd - curv.len() - 1) as nat
                    },
                    curv == prefix.deep_view(),
                    seg_prefix_of(rootv, curv),
                    same_objects(pre, self.store),
                    live_shrunk(pre, self.store),
                    outside_preserved(pre, self.store, rootv),
                    worklist_rooted(rootv, worklist.deep_view()),
                    covered_or_after(self.store, rootv, worklist.deep_view(), curv, token as int),
                ensures
                    self.store.wf(),
                    same_objects(pre, self.store),
                    live_shrunk(pre, self.store),
                    outside_preserved(pre, self.store, rootv),
                    worklist_rooted(rootv, worklist.deep_view()),
                    covered_by_worklist(self.store, rootv, worklist.deep_view()),
                    wl_measure(worklist.deep_view(), bb, dd) < m_start,
                    wl_measure(worklist.deep_view(), bb, dd) >= 0,
                decreases self.store.len() - token,
            {
                let ghost s0 = self.store;
                let ghost wl0 = worklist.deep_view();
                let ghost wlm0 = wl_measure(wl0, bb, dd);
                let page = self.store.list(&prefix, token);
                let ghost end = page.spec_end(self.store.len());
                let mut j: usize = 0;
                while j < page.items.len()
                    invariant
                        self.store.wf(),
                        j <= page.items@.len(),
                        token <= end <= s0.len(),
                        s0.len() == pre.len(),
                        curv == prefix.deep_view(),
                        seg_prefix_of(rootv, curv),
                        crate::store::items_sound(
                            s0,
                            curv,
                            token as int,
                            end,
                            page.items.deep_view(),
                        ),
                        same_objects(pre, self.store),
                        live_shrunk(pre, self.store),
                        live_shrunk(s0, self.store),
                        outside_preserved(pre, self.store, rootv),
                        forall|jj: int|
                            0 <= jj < j ==> !self.store.has_object(
                                #[trigger] page.items.deep_view()[jj],
                            ),
                    decreases page.items@.len() - j,
                {
                    let ghost sb = self.store;
                    let nm = &page.items[j];
                    proof {
                        assert(page.items.deep_view()[j as int] == page.items@[
                            j as int
                        ].deep_view());
                        assert(nm.deep_view() == page.items.deep_view()[j as int]);
                        assert(page.items.deep_view().contains(nm.deep_view()));
                        let w = choose|i: int|
                            token <= i < end && s0.live_at(i) && leaf_under(
                                #[trigger] s0.name_at(i),
                                curv,
                            ) && s0.name_at(i) == nm.deep_view();
                        assert(strictly_under(nm.deep_view(), curv));
                        lemma_under_prefix_trans(nm.deep_view(), curv, rootv);
                        assert(strictly_under(nm.deep_view(), rootv));
                    }
                    self.store.delete(nm);
                    proof {
                        assert forall|i: int|
                            0 <= i < pre.len() && pre.live_at(i) && !strictly_under(
                                #[trigger] pre.name_at(i),
                                rootv,
                            ) implies self.store.live_at(i) by {
                            assert(sb.live_at(i));
                            assert(sb.name_at(i) == pre.name_at(i));
                            assert(sb.name_at(i) != nm.deep_view());
                        }
                        assert(outside_preserved(pre, self.store, rootv));
                        assert forall|jj: int| 0 <= jj < j + 1 implies !self.store.has_object(
                            #[trigger] page.items.deep_view()[jj],
                        ) by {
                            if jj < j {
                                assert(!sb.has_object(page.items.deep_view()[jj]));
                                if page.items.deep_view()[jj] != nm.deep_view() {
                                    assert(self.store.has_object(page.items.deep_view()[jj])
                                        == sb.has_object(page.items.deep_view()[jj]));
                                }
                            }
                        }
                    }
                    j = j + 1;
                }
                let ghost s1 = self.store;
                let mut w: usize = 0;
                while w < page.sub_prefixes.len()
                    invariant
                        w <= page.sub_prefixes@.len(),
                        self.store == s1,
                        curv == prefix.deep_view(),
                        seg_prefix_of(rootv, curv),
                        bb == pre.len() + 1,
                        dd == names_max_len(pre.entries@),
                        child_e == if curv.len() + 1 >= dd {
                            0nat
                        } else {
                            (dd - curv.len() - 1) as nat
                        },
                        s0.len() == pre.len(),
                        token <= end <= s0.len(),
                        same_objects(pre, s0),
                        crate::store::sub_prefixes_sound(
                            s0,
                            curv,
                            token as int,
                            end,
                            page.sub_prefixes.deep_view(),
                        ),
                        worklist_rooted(rootv, worklist.deep_view()),
                        forall|q: Seq<Seq<char>>|
                            wl0.contains(q) ==> worklist.deep_view().contains(q),
                        forall|jj: int|
                            0 <= jj < w ==> worklist.deep_view().contains(
                                curv.push(#[trigger] page.sub_prefixes.deep_view()[jj]),
                            ),
                        wl_measure(worklist.deep_view(), bb, dd) == wlm0 + (w as int)
                            * vstd::arithmetic::power::pow(bb, child_e),
                        w > 0 ==> curv.len() + 2 <= dd,
                    decreases page.sub_prefixes@.len() - w,
                {
                    let ghost wlb = worklist.deep_view();
                    proof {
                        let segv = page.sub_prefixes.deep_view()[w as int];
                        assert(page.sub_prefixes.deep_view().contains(segv));
                        let wi = choose|i: int|
                            token <= i < end && s0.live_at(i) && strictly_under(
                                #[trigger] s0.name_at(i),
                                curv,
                            ) && s0.name_at(i).len() > curv.len() + 1 && s0.name_at(i)[
                                curv.len() as int
                            ] == segv;
                        assert(s0.name_at(wi) == pre.name_at(wi));
                        lemma_names_max_bound(pre.entries@, wi);
                        assert(s0.name_at(wi).len() <= dd);
                        assert(curv.len() + 2 <= dd);
                    }
                    let mut child = crate::store::clone_segments(&prefix);
                    child.push(page.sub_prefixes[w].clone());
                    proof {
                        assert(page.sub_prefixes.deep_view()[w as int] == page.sub_prefixes@[
                            w as int
                        ]@);
                        assert(child.deep_view() =~= curv.push(
                            page.sub_prefixes.deep_view()[w as int],
                        ));
                        assert forall|x: int| 0 <= x < rootv.len() implies child.deep_view()
                            .subrange(0, rootv.len() as int)[x] == rootv[x] by {
                            assert(curv.subrange(0, rootv.len() as int)[x] == rootv[x]);
                            assert(child.deep_view()[x] == curv[x]);
                        }
                        assert(child.deep_view().subrange(0, rootv.len() as int) =~= rootv);
                        assert(seg_prefix_of(rootv, child.deep_view()));
                        assert(prefix_expo(child.deep_view(), dd) == child_e);
                    }
                    worklist.push(child);
                    proof {
                        assert(worklist.deep_view() =~= wlb.push(
                            curv.push(page.sub_prefixes.deep_view()[w as int]),
                        ));
                        lemma_wl_measure_push(
                            wlb,
                            curv.push(page.sub_prefixes.deep_view()[w as int]),
                            bb,
                            dd,
                        );
                        assert((w as int + 1) * vstd::arithmetic::power::pow(bb, child_e) == (
                        w as int) * vstd::arithmetic::power::pow(bb, child_e)
                            + vstd::arithmetic::power::pow(bb, child_e)) by (nonlinear_arith);
                        assert forall|k: int|
                            0 <= k < worklist.deep_view().len() implies seg_prefix_of(
                            rootv,
                            #[trigger] worklist.deep_view()[k],
                        ) by {
                            if k < wlb.len() {
                                assert(worklist.deep_view()[k] == wlb[k]);
                                assert(seg_prefix_of(rootv, wlb[k]));
                            } else {
                                assert(worklist.deep_view()[k] == child.deep_view());
                            }
                        }
                        assert forall|q: Seq<Seq<char>>| wl0.contains(q)
                            implies worklist.deep_view().contains(q) by {
                            assert(wlb.contains(q));
                            let k = choose|k: int| 0 <= k < wlb.len() && wlb[k] == q;
                            assert(worklist.deep_view()[k] == q);
                        }
                        assert(worklist.deep_view()[wlb.len() as int] == curv.push(
                            page.sub_prefixes.deep_view()[w as int],
                        ));
                        assert forall|jj: int| 0 <= jj < w + 1 implies worklist.deep_view()
                            .contains(curv.push(#[trigger] page.sub_prefixes.deep_view()[jj])) by {
                            if jj < w {
                                let q = curv.push(page.sub_prefixes.deep_view()[jj]);
                                assert(wlb.contains(q));
                                let k = choose|k: int| 0 <= k < wlb.len() && wlb[k] == q;
                                assert(worklist.deep_view()[k] == q);
                            } else {
                                assert(worklist.deep_view().contains(
                                    curv.push(page.sub_prefixes.deep_view()[jj]),
                                ));
                            }
                        }
                    }
                    w = w + 1;
                }
                proof {
                    assert forall|i: int|
                        0 <= i < self.store.len() && #[trigger] self.store.live_at(i)
                            && strictly_under(self.store.name_at(i), rootv) implies (
                    strictly_under(self.store.name_at(i), curv) && i >= end) || exists|
                        q: Seq<Seq<char>>,
                    |
                        #[trigger] worklist.deep_view().contains(q) && strictly_under(
                            self.store.name_at(i),
                            q,
                        ) by {
                        assert(s0.live_at(i));
                        assert(s0.name_at(i) == pre.name_at(i));
                        assert(self.store.name_at(i) == pre.name_at(i));
                        if strictly_under(s0.name_at(i), curv) && token <= i < end {
                            if s0.name_at(i).len() == curv.len() + 1 {
                                assert(leaf_under(s0.name_at(i), curv));
                                assert(page.items.deep_view().contains(s0.name_at(i)));
                                let jj = choose|jj: int|
                                    0 <= jj < page.items.deep_view().len()
                                        && page.items.deep_view()[jj] == s0.name_at(i);
                                assert(!self.store.has_object(page.items.deep_view()[jj]));
                                self.store.lemma_object_index(i);
                                assert(false);
                            } else {
                                let seg = s0.name_at(i)[curv.len() as int];
                                assert(page.sub_prefixes.deep_view().contains(seg));
                                let jj = choose|jj: int|
                                    0 <= jj < page.sub_prefixes.deep_view().len()
                                        && page.sub_prefixes.deep_view()[jj] == seg;
                                let q = curv.push(seg);
                                assert(worklist.deep_view().contains(q));
                                assert forall|x: int| 0 <= x < q.len() implies self.store.name_at(
                                    i,
                                ).subrange(0, q.len() as int)[x] == q[x] by {
                                    if x < curv.len() {
                                        assert(s0.name_at(i).subrange(0, curv.len() as int)[x]
                                            == curv[x]);
                                    }
                                }
                                assert(self.store.name_at(i).subrange(0, q.len() as int) =~= q);
                                assert(strictly_under(self.store.name_at(i), q));
                            }
                        } else if strictly_under(s0.name_at(i), curv) && i >= end {
                            assert(strictly_under(self.store.name_at(i), curv) && i >= end);
                        } else {
                            let q0 = choose|q: Seq<Seq<char>>|
                                #[trigger] wl0.contains(q) && strictly_under(s0.name_at(i), q);
                            assert(worklist.deep_view().contains(q0));
                            assert(strictly_under(self.store.name_at(i), q0));
                        }
                    }
                    vstd::arithmetic::power::lemma_pow_positive(bb, child_e);
                    if page.sub_prefixes.len() > 0 {
                        any_pushed = true;
                    }
                    assert(page.items.deep_view().len() + page.sub_prefixes.deep_view().len()
                        <= end - token);
                    if any_pushed {
                        assert((token as int) * vstd::arithmetic::power::pow(bb, child_e)
                            + (page.sub_prefixes@.len() as int) * vstd::arithmetic::power::pow(
                            bb,
                            child_e,
                        ) <= end * vstd::arithmetic::power::pow(bb, child_e)) by (nonlinear_arith)
                            requires
                                token as int + page.sub_prefixes@.len() as int <= end,
                                vstd::arithmetic::power::pow(bb, child_e) >= 1,
                        ;
                    }
                }
                match page.next_token {
                    Some(t) => {
                        token = t;
                    },
                    None => {
                        proof {
                            assert(end == self.store.len());
                            assert forall|i: int|
                                0 <= i < self.store.len() && #[trigger] self.store.live_at(i)
                                    && strictly_under(self.store.name_at(i), rootv) implies exists|
                                q: Seq<Seq<char>>,
                            |
                                #[trigger] worklist.deep_view().contains(q) && strictly_under(
                                    self.store.name_at(i),
                                    q,
                                ) by {}
                            vstd::arithmetic::power::lemma_pow_positive(bb, expo_cur);
                            if any_pushed {
                                assert(curv.len() + 2 <= dd);
                                assert(expo_cur == dd - curv.len());
                                assert(child_e == (expo_cur - 1) as nat);
                                vstd::arithmetic::power::lemma_pow1(bb);
                                vstd::arithmetic::power::lemma_pow_adds(bb, 1nat, child_e);
                                assert(vstd::arithmetic::power::pow(bb, expo_cur) == bb
                                    * vstd::arithmetic::power::pow(bb, child_e));
                                vstd::arithmetic::power::lemma_pow_positive(bb, child_e);
                                assert(end <= pre.len());
                                assert((end as int) * vstd::arithmetic::power::pow(bb, child_e)
                                    < bb * vstd::arithmetic::power::pow(bb, child_e))
                                    by (nonlinear_arith)
                                    requires
                                        end <= bb - 1,
                                        vstd::arithmetic::power::pow(bb, child_e) >= 1,
                                ;
                                assert(wl_measure(worklist.deep_view(), bb, dd) < m_start);
                            } else {
                                assert(wl_measure(worklist.deep_view(), bb, dd) < m_start);
                            }
                            lemma_wl_measure_nonneg(worklist.deep_view(), bb, dd);
                        }
                        break;
                    },
                }
            }
        }
        proof {
            assert forall|i: int|
                0 <= i < self.store.len() && self.store.live_at(i) implies !strictly_under(
                self.store.name_at(i),
                rootv,
            ) by {
                if strictly_under(self.store.name_at(i), rootv) {
                    assert(self.store.live_at(i));
                    let q = choose|q: Seq<Seq<char>>|
                        #[trigger] worklist.deep_view().contains(q) && strictly_under(
                            self.store.name_at(i),
                            q,
                        );
                    assert(false);
                }
            }
        }
        Ok(())
    }

    /// Aborts a session: deletes its marker and every part
    /// unconditionally. No completeness check is made.
    pub fn cleanup_upload(
        &mut self,
        bucket: &SafeString,
        key: &SafeString,
        upload_id: &SafeString,
    ) -> (r: Result<(), GatewayError>)
        requires
            old(self).wf(),
        ensures
            final(self).wf(),
            r is Ok,
            !session_present(final(self).store, root_of(bucket@, key@, upload_id@)),
            same_objects(old(self).store, final(self).store),
            live_shrunk(old(self).store, final(self).store),
            outside_preserved(
                old(self).store,
                final(self).store,
                root_path(root_of(bucket@, key@, upload_id@)),
            ),
    {
        let root = upload_root(bucket, key, upload_id);
        let name = root_name(&root);
        let r = self.rm_rf(name);
        proof {
            if session_present(self.store, root_of(bucket@, key@, upload_id@)) {
                let w = choose|i: int|
                    0 <= i < self.store.len() && self.store.live_at(i)
                        && #[trigger] strictly_under(
                        self.store.name_at(i),
                        root_path(root_of(bucket@, key@, upload_id@)),
                    );
                assert(false);
            }
        }
        r
    }
}


/// Whether part `n` of the session is stored.
pub open spec fn part_present(s: StagingStore, root: Seq<char>, n: int) -> bool {
    0 <= n < 10000 && s.has_object(part_path(root, n))
}

/// The set of part numbers the session has stored.
pub open spec fn parts_of(s: StagingStore, root: Seq<char>) -> Set<int> {
    Set::new(|n: int| part_present(s, root, n))
}

/// The session is complete: among the stored part numbers, every number
/// from one through their maximum is present, and at least one part is.
pub open spec fn upload_complete(s: StagingStore, root: Seq<char>) -> bool {
    crate::part_tracker::complete_up_to_max(parts_of(s, root))
}

/// The assembled object: the contents of parts one through `m`, in
/// ascending part order.
pub open spec fn assembled_bytes(s: StagingStore, root: Seq<char>, m: int) -> Seq<u8>
    decreases m,
{
    if m <= 0 {
        Seq::empty()
    } else {
        assembled_bytes(s, root, m - 1) + s.object_data(part_path(root, m))
    }
}

/// Appends a byte buffer.
fn append_bytes(out: &mut Vec<u8>, data: &Vec<u8>)
    ensures
        final(out)@ == old(out)@ + data@,
{
    let mut x: usize = 0;
    while x < data.len()
        invariant
            x <= data@.len(),
            out@ == old(out)@ + data@.subrange(0, x as int),
        decreases data@.len() - x,
    {
        out.push(data[x]);
        proof {
            assert(out@ =~= old(out)@ + data@.subrange(0, x + 1));
        }
        x = x + 1;
    }
    proof {
        assert(data@.subrange(0, data@.len() as int) =~= data@);
    }
}

impl CloudStorageForMultipartConstruction {
    /// Completes a session, so far as the staging store is concerned:
    /// lists every part object under the session's root (following every
    /// continuation token), feeds the part numbers into a fresh part
    /// tracker, and checks completeness.
    ///
    /// If some part of `1..=max` is missing, fails with `InvalidParts`
    /// and touches nothing, so the caller may retry after uploading the
    /// missing parts. If complete, returns the assembled object: the
    /// bytes of parts one through the maximum in ascending part order.
    /// The staging subtree is left in place either way: the caller hands
    /// the assembled object to the target store and only after a
    /// successful handoff deletes the subtree with `cleanup_upload` —
    /// on a failed handoff completion stays retryable.
    pub fn finish_upload(
        &self,
        bucket: &SafeString,
        key: &SafeString,
        upload_id: &SafeString,
    ) -> (r: Result<Vec<u8>, GatewayError>)
        requires
            self.wf(),
        ensures
            ({
                let root = root_of(bucket@, key@, upload_id@);
                match r {
                    Ok(d) => upload_complete(self.store, root) && exists|m: int|
                        {
                            &&& 1 <= m
                            &&& #[trigger] part_present(self.store, root, m)
                            &&& forall|j: int| 1 <= j <= m ==> part_present(self.store, root, j)
                            &&& forall|l: int| l > m ==> !part_present(self.store, root, l)
                            &&& d@ == assembled_bytes(self.store, root, m)
                        },
                    Err(e) => e == GatewayError::InvalidParts && !upload_complete(
                        self.store,
                        root,
                    ),
                }
            }),
    {
        let root = upload_root(bucket, key, upload_id);
        let name = root_name(&root);
        let ghost rootn = root@;
        let ghost rootv = root_path(rootn);
        let mut all_items: Vec<Vec<String>> = Vec::new();
        let mut token: usize = 0;
        loop
            invariant
                self.wf(),
                token <= self.store.len(),
                root@ == rootn,
                rootn == root_of(bucket@, key@, upload_id@),
                rootv == root_path(rootn),
                name.deep_view() == rootv,
                forall|i: int|
                    0 <= i < token && self.store.live_at(i) && leaf_under(
                        #[trigger] self.store.name_at(i),
                        rootv,
                    ) ==> all_items.deep_view().contains(self.store.name_at(i)),
                forall|nm: Seq<Seq<char>>| #![trigger all_items.deep_view().contains(nm)]
                    all_items.deep_view().contains(nm) ==> self.store.has_object(nm) && leaf_under(
                        nm,
                        rootv,
                    ),
            ensures
                root@ == rootn,
                forall|i: int|
                    0 <= i < self.store.len() && self.store.live_at(i) && leaf_under(
                        #[trigger] self.store.name_at(i),
                        rootv,
                    ) ==> all_items.deep_view().contains(self.store.name_at(i)),
                forall|nm: Seq<Seq<char>>| #![trigger all_items.deep_view().contains(nm)]
                    all_items.deep_view().contains(nm) ==> self.store.has_object(nm) && leaf_under(
                        nm,
                        rootv,
                    ),
            decreases self.store.len() - token,
        {
            let page = self.store.list(&name, token);
            let ghost end = page.spec_end(self.store.len());
            let mut j: usize = 0;
            while j < page.items.len()
                invariant
                    self.wf(),
                    j <= page.items@.len(),
                    token <= end <= self.store.len(),
                    rootv == root_path(rootn),
                    crate::store::items_sound(
                        self.store,
                        rootv,
                        token as int,
                        end,
                        page.items.deep_view(),
                    ),
                    forall|i: int|
                        0 <= i < token && self.store.live_at(i) && leaf_under(
                            #[trigger] self.store.name_at(i),
                            rootv,
                        ) ==> all_items.deep_view().contains(self.store.name_at(i)),
                    forall|nm: Seq<Seq<char>>| #![trigger all_items.deep_view().contains(nm)]
                        all_items.deep_view().contains(nm) ==> self.store.has_object(nm)
                            && leaf_under(nm, rootv),
                    forall|jj: int|
                        0 <= jj < j ==> all_items.deep_view().contains(
                            #[trigger] page.items.deep_view()[jj],
                        ),
                decreases page.items@.len() - j,
            {
                let ghost ai_before = all_items.deep_view();
                let item = crate::store::clone_segments(&page.items[j]);
                proof {
                    assert(item.deep_view() == page.items@[j as int].deep_view());
                    assert(item.deep_view() == page.items.deep_view()[j as int]);
                }
                all_items.push(item);
                proof {
                    assert(all_items.deep_view() =~= ai_before.push(
                        page.items.deep_view()[j as int],
                    ));
                    assert(all_items.deep_view()[ai_before.len() as int] == page.items.deep_view()[
                        j as int
                    ]);
                    assert forall|nm: Seq<Seq<char>>|
                        #![trigger all_items.deep_view().contains(nm)]
                        all_items.deep_view().contains(nm) implies self.store.has_object(nm)
                        && leaf_under(nm, rootv) by {
                        let k = choose|k: int|
                            0 <= k < all_items.deep_view().len() && all_items.deep_view()[k] == nm;
                        if k < ai_before.len() {
                            assert(ai_before[k] == nm);
                            assert(ai_before.contains(nm));
                        } else {
                            assert(nm == page.items.deep_view()[j as int]);
                            assert(page.items.deep_view().contains(nm));
                            let wi = choose|i: int|
                                token <= i < end && self.store.live_at(i) && leaf_under(
                                    #[trigger] self.store.name_at(i),
                                    rootv,
                                ) && self.store.name_at(i) == nm;
                            assert(self.store.has_object(nm));
                        }
                    }
                    assert forall|i: int|
                        0 <= i < token && self.store.live_at(i) && leaf_under(
                            #[trigger] self.store.name_at(i),
                            rootv,
                        ) implies all_items.deep_view().contains(self.store.name_at(i)) by {
                        assert(ai_before.contains(self.store.name_at(i)));
                        let k = choose|k: int|
                            0 <= k < ai_before.len() && ai_before[k] == self.store.name_at(i);
                        assert(all_items.deep_view()[k] == self.store.name_at(i));
                    }
                    assert forall|jj: int| 0 <= jj < j + 1 implies all_items.deep_view().contains(
                        #[trigger] page.items.deep_view()[jj],
                    ) by {
                        if jj < j {
                            assert(ai_before.contains(page.items.deep_view()[jj]));
                            let k = choose|k: int|
                                0 <= k < ai_before.len() && ai_before[k] == page.items.deep_view()[
                                    jj
                                ];
                            assert(all_items.deep_view()[k] == page.items.deep_view()[jj]);
                        } else {
                            assert(all_items.deep_view()[ai_before.len() as int]
                                == page.items.deep_view()[jj]);
                        }
                    }
                }
                j = j + 1;
            }
            proof {
                assert forall|i: int|
                    0 <= i < end && self.store.live_at(i) && leaf_under(
                        #[trigger] self.store.name_at(i),
                        rootv,
                    ) implies all_items.deep_view().contains(self.store.name_at(i)) by {
                    if token <= i < end {
                        assert(page.items.deep_view().contains(self.store.name_at(i)));
                        let jj = choose|jj: int|
                            0 <= jj < page.items.deep_view().len() && page.items.deep_view()[jj]
                                == self.store.name_at(i);
                        assert(all_items.deep_view().contains(page.items.deep_view()[jj]));
                    }
                }
            }
            match page.next_token {
                Some(t) => {
                    token = t;
                },
                None => {
                    proof {
                        assert(end == self.store.len());
                    }
                    break;
                },
            }
        }
        let mut tracker = crate::part_tracker::PartTracker::new();
        let mut j: usize = 0;
        while j < all_items.len()
            invariant
                self.wf(),
                j <= all_items@.len(),
                root@ == rootn,
                rootv == root_path(rootn),
                tracker.wf(),
                forall|nm: Seq<Seq<char>>| #![trigger all_items.deep_view().contains(nm)]
                    all_items.deep_view().contains(nm) ==> self.store.has_object(nm) && leaf_under(
                        nm,
                        rootv,
                    ),
                forall|n: int|
                    #[trigger] tracker@.contains(n) ==> 0 <= n < 10000 && self.store.has_object(
                        part_path(rootn, n),
                    ),
                forall|jj: int, n: int|
                    #![trigger all_items.deep_view()[jj], part_path(rootn, n)]
                    0 <= jj < j && 0 <= n < 10000 && all_items.deep_view()[jj] == part_path(
                        rootn,
                        n,
                    ) ==> tracker@.contains(n),
            decreases all_items@.len() - j,
        {
            let ghost t_before = tracker@;
            let item = &all_items[j];
            proof {
                assert(item.deep_view() == all_items.deep_view()[j as int]);
                assert(all_items.deep_view().contains(item.deep_view()));
                assert(leaf_under(item.deep_view(), rootv));
                assert(item.deep_view().len() == 2);
                assert(item.deep_view()[0] == rootn) by {
                    assert(item.deep_view().subrange(0, 1)[0] == rootv[0]);
                }
                assert(item@.len() == 2);
            }
            let seg = &item[1];
            match crate::paths::parse_part_segment(seg.as_str()) {
                Some(n) => {
                    proof {
                        assert(item.deep_view()[1] == seg@);
                        assert(item.deep_view() =~= part_path(rootn, n as int));
                    }
                    let added = tracker.add_part(n);
                    proof {
                        assert(added is Ok);
                        assert(tracker@ == t_before.insert(n as int));
                        assert forall|nn: int| #[trigger] tracker@.contains(nn) implies 0 <= nn
                            < 10000 && self.store.has_object(part_path(rootn, nn)) by {
                            if nn != n as int {
                                assert(t_before.contains(nn));
                            } else {
                                assert(self.store.has_object(item.deep_view()));
                            }
                        }
                        assert forall|jj: int, n2: int|
                            0 <= jj < j + 1 && 0 <= n2 < 10000 && #[trigger] all_items.deep_view()[
                            jj] == #[trigger] part_path(rootn, n2) implies tracker@.contains(
                            n2,
                        ) by {
                            if jj < j {
                                assert(t_before.contains(n2));
                            } else {
                                assert(part_path(rootn, n2)[1] == dec_str(n2));
                                assert(seg@ == dec_str(n2));
                                crate::paths::lemma_dec_str_injective(n2, n as int);
                            }
                        }
                    }
                },
                None => {
                    proof {
                        assert forall|jj: int, n2: int|
                            0 <= jj < j + 1 && 0 <= n2 < 10000 && #[trigger] all_items.deep_view()[
                            jj] == #[trigger] part_path(rootn, n2) implies tracker@.contains(
                            n2,
                        ) by {
                            if jj < j {
                                assert(t_before.contains(n2));
                            } else {
                                assert(part_path(rootn, n2)[1] == dec_str(n2));
                                assert(seg@ == dec_str(n2));
                                assert(false);
                            }
                        }
                    }
                },
            }
            j = j + 1;
        }
        proof {
            assert forall|n: int| #[trigger] parts_of(self.store, rootn).contains(n)
                implies tracker@.contains(n) by {
                assert(part_present(self.store, rootn, n));
                assert(self.store.has_object(part_path(rootn, n)));
                let wi = choose|i: int|
                    0 <= i < self.store.len() && self.store.live_at(i)
                        && #[trigger] self.store.name_at(i) == part_path(rootn, n);
                assert(part_path(rootn, n).subrange(0, 1) =~= rootv);
                assert(leaf_under(self.store.name_at(wi), rootv));
                assert(all_items.deep_view().contains(part_path(rootn, n)));
                let jj = choose|k: int|
                    0 <= k < all_items.deep_view().len() && all_items.deep_view()[k] == part_path(
                        rootn,
                        n,
                    );
                assert(all_items.deep_view()[jj] == part_path(rootn, n));
            }
            assert forall|n: int| #[trigger] tracker@.contains(n) implies parts_of(
                self.store,
                rootn,
            ).contains(n) by {
                assert(0 <= n < 10000 && self.store.has_object(part_path(rootn, n)));
            }
            assert(tracker@ =~= parts_of(self.store, rootn));
        }
        if !tracker.is_complete() {
            return Err(GatewayError::InvalidParts);
        }
        let m = tracker.largest();
        proof {
            tracker.lemma_wf_largest();
            assert(1 <= m as int);
            assert(part_present(self.store, rootn, m as int));
            assert forall|j2: int| 1 <= j2 <= m as int implies part_present(
                self.store,
                rootn,
                j2,
            ) by {
                assert(tracker@.contains(j2));
                assert(parts_of(self.store, rootn).contains(j2));
            }
            assert forall|l: int| l > m as int implies !part_present(self.store, rootn, l) by {
                if part_present(self.store, rootn, l) {
                    assert(tracker@.contains(l));
                }
            }
        }
        let mut out: Vec<u8> = Vec::new();
        let mut n: u32 = 1;
        while n <= m
            invariant
                self.wf(),
                root@ == rootn,
                1 <= n <= m + 1,
                m < 10000,
                forall|j2: int| 1 <= j2 <= m as int ==> part_present(self.store, rootn, j2),
                out@ == assembled_bytes(self.store, rootn, n as int - 1),
            decreases m + 1 - n,
        {
            let pn = part_name(&root, n);
            proof {
                assert(part_present(self.store, rootn, n as int));
            }
            match self.store.get(&pn) {
                Some(d) => {
                    append_bytes(&mut out, d);
                    proof {
                        assert(out@ == assembled_bytes(self.store, rootn, n as int));
                    }
                },
                None => {
                    proof {
                        assert(false);
                    }
                    return Err(GatewayError::InvalidParts);
                },
            }
            n = n + 1;
        }
        proof {
            assert(upload_complete(self.store, rootn)) by {
                assert(crate::part_tracker::complete_up_to_max(tracker@));
            }
            assert(out@ == assembled_bytes(self.store, rootn, m as int));
        }
        Ok(out)
    }
}


/// The retention window: a session whose marker is older than this is
/// expired.
pub const RETENTION_SECONDS: i64 = 60 * 60 * 24 * 7;

/// What a marker read came back with, as the sweep sees it.
pub enum MarkerStatus {
    /// The marker exists and holds this creation time.
    Present(i64),
    /// The marker is missing, is not text, or does not parse as a time:
    /// the session is corrupt or abandoned.
    AbsentOrCorrupt,
    /// The marker could not be read at all (connectivity, permission):
    /// nothing is known about the session.
    ReadError,
}

/// What the sweep does with one session.
#[derive(PartialEq, Eq, Structural, Debug)]
pub enum SweepAction {
    /// Reclaim the session: delete its whole staging subtree.
    Delete,
    /// The session is alive: leave it be.
    Retain,
    /// Leave the session alone this pass, but keep sweeping the rest:
    /// one unreadable session must not block reclamation of the others.
    Skip,
}

/// The sweep's decision for one session, given its marker and the time.
pub open spec fn spec_sweep_action(status: MarkerStatus, now: i64) -> SweepAction {
    match status {
        MarkerStatus::Present(ts) => if now - ts > RETENTION_SECONDS {
            SweepAction::Delete
        } else {
            SweepAction::Retain
        },
        MarkerStatus::AbsentOrCorrupt => SweepAction::Delete,
        MarkerStatus::ReadError => SweepAction::Skip,
    }
}

/// Decides what the sweep does with one session: an expired or corrupt
/// session is deleted, a fresh one retained, and an unreadable one
/// skipped for this pass.
pub fn sweep_decision(status: &MarkerStatus, now: i64) -> (r: SweepAction)
    ensures
        r == spec_sweep_action(*status, now),
{
    match status {
        MarkerStatus::Present(ts) => {
            if (now as i128) - (*ts as i128) > (RETENTION_SECONDS as i128) {
                SweepAction::Delete
            } else {
                SweepAction::Retain
            }
        },
        MarkerStatus::AbsentOrCorrupt => SweepAction::Delete,
        MarkerStatus::ReadError => SweepAction::Skip,
    }
}

/// Whether the sweep condemns the session rooted at segment `seg`: its
/// marker is missing, unreadable as a timestamp, or older than the
/// retention window.
pub open spec fn sweep_condemns(s: StagingStore, seg: Seq<char>, now: i64) -> bool {
    if s.has_object(marker_path(seg)) {
        match marker_ts(s.object_data(marker_path(seg))) {
            Some(ts) => now - ts > RETENTION_SECONDS,
            None => true,
        }
    } else {
        true
    }
}

/// Once condemned, always condemned: deletions never revive a session's
/// marker.
proof fn lemma_condemned_monotone(pre: StagingStore, s: StagingStore, seg: Seq<char>, now: i64)
    requires
        pre.wf(),
        s.wf(),
        same_objects(pre, s),
        live_shrunk(pre, s),
        sweep_condemns(pre, seg, now),
    ensures
        sweep_condemns(s, seg, now),
{
    let mp = marker_path(seg);
    if s.has_object(mp) {
        let i = choose|i: int|
            0 <= i < s.len() && s.live_at(i) && #[trigger] s.name_at(i) == mp;
        s.lemma_object_index(i);
        assert(pre.live_at(i));
        assert(pre.name_at(i) == mp);
        pre.lemma_object_index(i);
        assert(pre.has_object(mp));
        assert(s.object_data(mp) == pre.object_data(mp));
    }
}


/// Being stored is monotone downward: a name absent from a store stays
/// absent after deletions.
proof fn lemma_has_object_monotone(a: StagingStore, b: StagingStore, nm: Seq<Seq<char>>)
    requires
        same_objects(a, b),
        live_shrunk(a, b),
        !a.has_object(nm),
    ensures
        !b.has_object(nm),
{
    if b.has_object(nm) {
        let i = choose|i: int| 0 <= i < b.len() && b.live_at(i) && #[trigger] b.name_at(i) == nm;
        assert(a.live_at(i));
        assert(a.name_at(i) == nm);
    }
}

/// Entry-log equality is transitive.
proof fn lemma_same_objects_trans(a: StagingStore, b: StagingStore, c: StagingStore)
    requires
        same_objects(a, b),
        same_objects(b, c),
    ensures
        same_objects(a, c),
{
    assert forall|i: int| 0 <= i < a.len() implies #[trigger] c.name_at(i) == a.name_at(i)
        && c.data_at(i) == a.data_at(i) by {
        assert(b.name_at(i) == a.name_at(i));
        assert(c.name_at(i) == b.name_at(i));
        assert(b.data_at(i) == a.data_at(i));
        assert(c.data_at(i) == b.data_at(i));
    }
}

/// Deletion-only change is transitive.
proof fn lemma_live_shrunk_trans(a: StagingStore, b: StagingStore, c: StagingStore)
    requires
        live_shrunk(a, b),
        live_shrunk(b, c),
        b.len() == a.len(),
    ensures
        live_shrunk(a, c),
{
    assert forall|i: int| 0 <= i < a.len() && #[trigger] c.live_at(i) implies a.live_at(i) by {
        assert(b.live_at(i));
    }
}

/// Every live session entry of `pre` whose session escapes condemnation
/// is still live in `s`.
pub open spec fn sweep_retained(pre: StagingStore, s: StagingStore, now: i64) -> bool {
    forall|i: int| #![trigger pre.live_at(i)]
        0 <= i < pre.len() && pre.live_at(i) && pre.name_at(i).len() >= 2 && !sweep_condemns(
            pre,
            pre.name_at(i)[0],
            now,
        ) ==> s.live_at(i)
}

/// Up to the scan position, loose root objects and entries of condemned
/// sessions are gone.
pub open spec fn sweep_progress(pre: StagingStore, s: StagingStore, now: i64, token: int) -> bool {
    forall|i: int| #![trigger s.live_at(i)]
        0 <= i < pre.len() && s.live_at(i) ==> ((pre.name_at(i).len() == 1 ==> i >= token) && (
        pre.name_at(i).len() >= 2 && sweep_condemns(pre, pre.name_at(i)[0], now) ==> i >= token))
}

impl CloudStorageForMultipartConstruction {
    /// A maintenance pass over the whole staging area.
    ///
    /// Lists the top level (following every continuation token). Loose
    /// objects directly at the root indicate a bug and are deleted. Each
    /// top-level prefix is a candidate session root: its marker is read
    /// and the session deleted when the marker is missing, unreadable as
    /// a timestamp, or older than the retention window; otherwise the
    /// session is retained untouched.
    pub fn run_cleanup_sweep(&mut self, now: i64) -> (r: Result<(), GatewayError>)
        requires
            old(self).wf(),
        ensures
            final(self).wf(),
            r is Ok,
            same_objects(old(self).store, final(self).store),
            live_shrunk(old(self).store, final(self).store),
            forall|i: int|
                0 <= i < final(self).store.len() && #[trigger] final(self).store.live_at(i)
                    ==> final(self).store.name_at(i).len() >= 2 && !sweep_condemns(
                    old(self).store,
                    final(self).store.name_at(i)[0],
                    now,
                ),
            sweep_retained(old(self).store, final(self).store, now),
    {
        let ghost pre = self.store;
        let empty_prefix: Vec<String> = Vec::new();
        let ghost emptyv = empty_prefix.deep_view();
        let mut token: usize = 0;
        proof {
            assert(emptyv =~= Seq::<Seq<char>>::empty());
        }
        loop
            invariant
                self.store.wf(),
                token <= self.store.len(),
                empty_prefix@.len() == 0,
                emptyv == empty_prefix.deep_view(),
                emptyv.len() == 0,
                pre.wf(),
                same_objects(pre, self.store),
                live_shrunk(pre, self.store),
                sweep_retained(pre, self.store, now),
                sweep_progress(pre, self.store, now, token as int),
            ensures
                self.store.wf(),
                same_objects(pre, self.store),
                live_shrunk(pre, self.store),
                sweep_retained(pre, self.store, now),
                sweep_progress(pre, self.store, now, pre.len()),
            decreases self.store.len() - token,
        {
            let ghost s0 = self.store;
            let page = self.store.list(&empty_prefix, token);
            let ghost end = page.spec_end(self.store.len());
            let mut j: usize = 0;
            while j < page.items.len()
                invariant
                    self.store.wf(),
                    pre.wf(),
                    j <= page.items@.len(),
                    token <= end <= s0.len(),
                    s0.len() == pre.len(),
                    emptyv.len() == 0,
                    crate::store::items_sound(s0, emptyv, token as int, end, page.items.deep_view()),
                    same_objects(pre, self.store),
                    live_shrunk(pre, self.store),
                    live_shrunk(s0, self.store),
                    sweep_retained(pre, self.store, now),
                    sweep_progress(pre, self.store, now, token as int),
                    forall|jj: int|
                        0 <= jj < j ==> !self.store.has_object(
                            #[trigger] page.items.deep_view()[jj],
                        ),
                decreases page.items@.len() - j,
            {
                let ghost sb = self.store;
                let nm = &page.items[j];
                proof {
                    assert(nm.deep_view() == page.items.deep_view()[j as int]);
                    assert(page.items.deep_view().contains(nm.deep_view()));
                    let wx = choose|i: int|
                        token <= i < end && s0.live_at(i) && leaf_under(
                            #[trigger] s0.name_at(i),
                            emptyv,
                        ) && s0.name_at(i) == nm.deep_view();
                    assert(nm.deep_view().len() == 1);
                }
                self.store.delete(nm);
                proof {
                    assert forall|i: int|
                        0 <= i < pre.len() && pre.live_at(i) && pre.name_at(i).len() >= 2
                            && !sweep_condemns(pre, pre.name_at(i)[0], now) implies
                        self.store.live_at(i) by {
                        assert(sb.live_at(i));
                        assert(sb.name_at(i) == pre.name_at(i));
                        assert(sb.name_at(i) != nm.deep_view());
                    }
                    assert(sweep_retained(pre, self.store, now));
                    assert forall|i: int|
                        0 <= i < pre.len() && #[trigger] self.store.live_at(i) implies ((
                    pre.name_at(i).len() == 1 ==> i >= token) && (pre.name_at(i).len() >= 2
                        && sweep_condemns(pre, pre.name_at(i)[0], now) ==> i >= token)) by {
                        assert(sb.live_at(i));
                    }
                    assert(sweep_progress(pre, self.store, now, token as int));
                    assert forall|jj: int| 0 <= jj < j + 1 implies !self.store.has_object(
                        #[trigger] page.items.deep_view()[jj],
                    ) by {
                        if jj < j {
                            assert(!sb.has_object(page.items.deep_view()[jj]));
                            if page.items.deep_view()[jj] != nm.deep_view() {
                                assert(self.store.has_object(page.items.deep_view()[jj])
                                    == sb.has_object(page.items.deep_view()[jj]));
                            }
                        }
                    }
                }
                j = j + 1;
            }
            let ghost s1 = self.store;
            let mut w: usize = 0;
            while w < page.sub_prefixes.len()
                invariant
                    self.store.wf(),
                    pre.wf(),
                    w <= page.sub_prefixes@.len(),
                    token <= end <= s0.len(),
                    s0.len() == pre.len(),
                    emptyv.len() == 0,
                    crate::store::sub_prefixes_sound(
                        s0,
                        emptyv,
                        token as int,
                        end,
                        page.sub_prefixes.deep_view(),
                    ),
                    same_objects(pre, self.store),
                    live_shrunk(pre, self.store),
                    live_shrunk(s0, self.store),
                    sweep_retained(pre, self.store, now),
                    sweep_progress(pre, self.store, now, token as int),
                    forall|jj: int|
                        0 <= jj < page.items.deep_view().len() ==> !self.store.has_object(
                            #[trigger] page.items.deep_view()[jj],
                        ),
                    forall|jj: int, i: int|
                        #![trigger page.sub_prefixes.deep_view()[jj], self.store.live_at(i)]
                        0 <= jj < w && 0 <= i < self.store.len() && self.store.live_at(i)
                            && sweep_condemns(pre, page.sub_prefixes.deep_view()[jj], now)
                            ==> !strictly_under(
                            self.store.name_at(i),
                            root_path(page.sub_prefixes.deep_view()[jj]),
                        ),
                decreases page.sub_prefixes@.len() - w,
            {
                let seg = page.sub_prefixes[w].clone();
                let ghost segv = seg@;
                proof {
                    assert(segv == page.sub_prefixes.deep_view()[w as int]);
                }
                let mname = marker_name(&seg);
                let ghost sb = self.store;
                let status = match self.store.get(&mname) {
                    Some(d) => match crate::timefmt::parse_marker(d) {
                        Some(ts) => MarkerStatus::Present(ts),
                        None => MarkerStatus::AbsentOrCorrupt,
                    },
                    None => MarkerStatus::AbsentOrCorrupt,
                };
                let action = sweep_decision(&status, now);
                proof {
                    assert(mname.deep_view() == marker_path(segv));
                    assert((action == SweepAction::Delete) == sweep_condemns(sb, segv, now));
                    assert(action != SweepAction::Skip);
                    if sweep_condemns(sb, segv, now) && !sweep_condemns(pre, segv, now) {
                        let mp = marker_path(segv);
                        assert(pre.has_object(mp));
                        let k = choose|k: int|
                            0 <= k < pre.len() && pre.live_at(k) && #[trigger] pre.name_at(k)
                                == mp;
                        assert(pre.name_at(k).len() == 2);
                        assert(pre.name_at(k)[0] == segv);
                        assert(sb.live_at(k));
                        assert(sb.name_at(k) == mp);
                        sb.lemma_object_index(k);
                        pre.lemma_object_index(k);
                        assert(sb.object_data(mp) == pre.object_data(mp));
                        assert(false);
                    }
                    assert((action == SweepAction::Delete) ==> sweep_condemns(pre, segv, now));
                    if !sweep_condemns(sb, segv, now) {
                        assert(!sweep_condemns(pre, segv, now)) by {
                            if sweep_condemns(pre, segv, now) {
                                lemma_condemned_monotone(pre, sb, segv, now);
                            }
                        }
                    }
                }
                match action {
                    SweepAction::Delete => {
                        let mut rootvec: Vec<String> = Vec::new();
                        rootvec.push(seg);
                        proof {
                            assert(rootvec.deep_view() =~= root_path(segv));
                        }
                        let res = self.rm_rf(rootvec);
                        proof {
                            lemma_same_objects_trans(pre, sb, self.store);
                            lemma_live_shrunk_trans(pre, sb, self.store);
                            assert(live_shrunk(s0, self.store)) by {
                                lemma_live_shrunk_trans(s0, sb, self.store);
                            }
                            assert(sweep_condemns(pre, segv, now));
                            assert forall|i: int|
                                0 <= i < pre.len() && pre.live_at(i) && pre.name_at(i).len() >= 2
                                    && !sweep_condemns(pre, pre.name_at(i)[0], now) implies
                                self.store.live_at(i) by {
                                assert(sb.live_at(i));
                                assert(sb.name_at(i) == pre.name_at(i));
                                if strictly_under(sb.name_at(i), root_path(segv)) {
                                    assert(pre.name_at(i)[0] == segv) by {
                                        assert(sb.name_at(i).subrange(0, 1)[0] == root_path(
                                            segv,
                                        )[0]);
                                    }
                                    assert(false);
                                }
                            }
                            assert(sweep_retained(pre, self.store, now));
                            assert forall|i: int|
                                0 <= i < pre.len() && #[trigger] self.store.live_at(i) implies ((
                            pre.name_at(i).len() == 1 ==> i >= token) && (pre.name_at(i).len() >= 2
                                && sweep_condemns(pre, pre.name_at(i)[0], now) ==> i
                                >= token)) by {
                                assert(sb.live_at(i));
                            }
                            assert(sweep_progress(pre, self.store, now, token as int));
                            assert forall|jj: int|
                                0 <= jj < page.items.deep_view().len() implies
                                !self.store.has_object(#[trigger] page.items.deep_view()[jj]) by {
                                lemma_has_object_monotone(
                                    sb,
                                    self.store,
                                    page.items.deep_view()[jj],
                                );
                            }
                            assert forall|jj: int, i: int|
                                0 <= jj < w + 1 && 0 <= i < self.store.len()
                                    && #[trigger] self.store.live_at(i) && sweep_condemns(
                                    pre,
                                    #[trigger] page.sub_prefixes.deep_view()[jj],
                                    now,
                                ) implies !strictly_under(
                                self.store.name_at(i),
                                root_path(page.sub_prefixes.deep_view()[jj]),
                            ) by {
                                if jj < w {
                                    assert(sb.live_at(i));
                                    assert(sb.name_at(i) == self.store.name_at(i));
                                } else {
                                    assert(page.sub_prefixes.deep_view()[jj] == segv);
                                }
                            }
                        }
                    },
                    SweepAction::Retain => {
                        proof {
                            assert(!sweep_condemns(pre, segv, now));
                            assert forall|jj: int, i: int|
                                0 <= jj < w + 1 && 0 <= i < self.store.len()
                                    && #[trigger] self.store.live_at(i) && sweep_condemns(
                                    pre,
                                    #[trigger] page.sub_prefixes.deep_view()[jj],
                                    now,
                                ) implies !strictly_under(
                                self.store.name_at(i),
                                root_path(page.sub_prefixes.deep_view()[jj]),
                            ) by {
                                if jj == w {
                                    assert(page.sub_prefixes.deep_view()[jj] == segv);
                                    assert(!sweep_condemns(pre, segv, now));
                                }
                            }
                        }
                    },
                    SweepAction::Skip => {
                        proof {
                            assert(false);
                        }
                    },
                }
                w = w + 1;
            }
            proof {
                assert forall|i: int|
                    0 <= i < pre.len() && #[trigger] self.store.live_at(i) implies ((pre.name_at(
                    i,
                ).len() == 1 ==> i >= end) && (pre.name_at(i).len() >= 2 && sweep_condemns(
                    pre,
                    pre.name_at(i)[0],
                    now,
                ) ==> i >= end)) by {
                    assert(s0.live_at(i));
                    assert(s0.name_at(i) == pre.name_at(i));
                    if token <= i < end {
                        if pre.name_at(i).len() == 1 {
                            assert(s0.name_at(i).subrange(0, 0) =~= emptyv);
                            assert(leaf_under(s0.name_at(i), emptyv));
                            assert(page.items.deep_view().contains(s0.name_at(i)));
                            let jj = choose|jj: int|
                                0 <= jj < page.items.deep_view().len() && page.items.deep_view()[
                                    jj
                                ] == s0.name_at(i);
                            assert(!self.store.has_object(page.items.deep_view()[jj]));
                            self.store.lemma_object_index(i);
                            assert(false);
                        } else if pre.name_at(i).len() >= 2 && sweep_condemns(
                            pre,
                            pre.name_at(i)[0],
                            now,
                        ) {
                            assert(s0.name_at(i).subrange(0, 0) =~= emptyv);
                            assert(strictly_under(s0.name_at(i), emptyv));
                            assert(s0.name_at(i).len() > emptyv.len() + 1);
                            let seg = s0.name_at(i)[0];
                            assert(page.sub_prefixes.deep_view().contains(seg));
                            let jj = choose|jj: int|
                                0 <= jj < page.sub_prefixes.deep_view().len()
                                    && page.sub_prefixes.deep_view()[jj] == seg;
                            assert(sweep_condemns(pre, page.sub_prefixes.deep_view()[jj], now));
                            assert(self.store.name_at(i).subrange(0, 1) =~= root_path(seg));
                            assert(strictly_under(self.store.name_at(i), root_path(seg)));
                            assert(false);
                        }
                    }
                }
            }
            match page.next_token {
                Some(t) => {
                    token = t;
                },
                None => {
                    proof {
                        assert(end == self.store.len());
                        assert(sweep_progress(pre, self.store, now, pre.len()));
                    }
                    break;
                },
            }
        }
        proof {
            assert forall|i: int|
                0 <= i < self.store.len() && #[trigger] self.store.live_at(i) implies
                self.store.name_at(i).len() >= 2 && !sweep_condemns(
                pre,
                self.store.name_at(i)[0],
                now,
            ) by {
                assert(pre.live_at(i));
                assert(pre.name_at(i).len() >= 1);
                assert(self.store.name_at(i) == pre.name_at(i));
                assert(pre.name_at(i).len() != 1);
                if sweep_condemns(pre, pre.name_at(i)[0], now) {
                    assert(false);
                }
            }
        }
        Ok(())
    }
}


/// A store with nothing below a prefix has no listable object below it:
/// what `rm_rf` leaves behind under the removed prefix is nothing.
pub proof fn lemma_removed_subtree_unlistable(s: StagingStore, root: Seq<Seq<char>>)
    requires
        forall|i: int|
            0 <= i < s.len() && s.live_at(i) ==> !strictly_under(#[trigger] s.name_at(i), root),
    ensures
        forall|nm: Seq<Seq<char>>| strictly_under(nm, root) ==> !s.has_object(nm),
{
    assert forall|nm: Seq<Seq<char>>| strictly_under(nm, root) implies !s.has_object(nm) by {
        if s.has_object(nm) {
            let i = choose|i: int|
                0 <= i < s.len() && s.live_at(i) && #[trigger] s.name_at(i) == nm;
            assert(!strictly_under(s.name_at(i), root));
        }
    }
}

/// The marker object is not a part object.
pub proof fn lemma_marker_not_part(root: Seq<char>, n: int)
    requires
        0 <= n,
    ensures
        marker_path(root) != part_path(root, n),
{
    reveal_strlit("marker");
    crate::paths::lemma_dec_str_canonical(n);
    if marker_path(root) == part_path(root, n) {
        assert(marker_path(root)[1] == part_path(root, n)[1]);
        assert("marker"@ == dec_str(n));
        assert(crate::paths::digit_val("marker"@[0]) < 10);
        assert("marker"@[0] == 'm');
        assert(false);
    }
}

/// Writing a part adds exactly that part number to the session's part
/// set; uploading the same number again changes nothing in the set.
pub proof fn lemma_upload_adds_part(
    pre: StagingStore,
    post: StagingStore,
    root: Seq<char>,
    n: int,
)
    requires
        0 <= n < 10000,
        post.has_object(part_path(root, n)),
        forall|q: Seq<Seq<char>>|
            q != part_path(root, n) ==> post.has_object(q) == pre.has_object(q),
    ensures
        parts_of(post, root) =~= parts_of(pre, root).insert(n),
{
    assert forall|m: int| #[trigger] parts_of(post, root).contains(m) implies parts_of(
        pre,
        root,
    ).insert(n).contains(m) by {
        if m != n {
            assert(part_path(root, m) != part_path(root, n)) by {
                if part_path(root, m) == part_path(root, n) {
                    assert(dec_str(m) == dec_str(n));
                    crate::paths::lemma_dec_str_injective(m, n);
                }
            }
        }
    }
    assert forall|m: int| #[trigger] parts_of(pre, root).insert(n).contains(m) implies parts_of(
        post,
        root,
    ).contains(m) by {
        if m != n {
            assert(parts_of(pre, root).contains(m));
            assert(part_path(root, m) != part_path(root, n)) by {
                if part_path(root, m) == part_path(root, n) {
                    assert(dec_str(m) == dec_str(n));
                    crate::paths::lemma_dec_str_injective(m, n);
                }
            }
        }
    }
}

/// Writing the session marker adds no part: creating a session leaves
/// its part set as it was (empty, for a fresh session).
pub proof fn lemma_marker_adds_no_part(
    pre: StagingStore,
    post: StagingStore,
    root: Seq<char>,
)
    requires
        forall|q: Seq<Seq<char>>|
            q != marker_path(root) ==> post.has_object(q) == pre.has_object(q),
    ensures
        parts_of(post, root) =~= parts_of(pre, root),
{
    assert forall|m: int|
        #![trigger parts_of(post, root).contains(m)]
        #![trigger parts_of(pre, root).contains(m)]
        0 <= m < 10000 implies parts_of(post, root).contains(m) == parts_of(
        pre,
        root,
    ).contains(m) by {
        lemma_marker_not_part(root, m);
    }
    assert forall|m: int| !(0 <= m < 10000) implies !parts_of(post, root).contains(m)
        && !parts_of(pre, root).contains(m) by {}
}

/// The round trip: a session whose parts are exactly `1..=k` is
/// complete.
pub proof fn lemma_contiguous_parts_complete(s: StagingStore, root: Seq<char>, k: int)
    requires
        1 <= k < 10000,
        forall|n: int| #[trigger] parts_of(s, root).contains(n) <==> 1 <= n <= k,
    ensures
        upload_complete(s, root),
{
    assert(parts_of(s, root).contains(k));
    assert(forall|j: int| 1 <= j <= k ==> parts_of(s, root).contains(j));
    assert(forall|l: int| l > k ==> !parts_of(s, root).contains(l));
    assert(crate::part_tracker::complete_up_to_max(parts_of(s, root)));
}

/// A gap makes completion fail: if part `g` is missing while some later
/// part is present, the session is not complete.
pub proof fn lemma_gap_incomplete(s: StagingStore, root: Seq<char>, g: int, l: int)
    requires
        1 <= g < l,
        !part_present(s, root, g),
        part_present(s, root, l),
    ensures
        !upload_complete(s, root),
{
    if upload_complete(s, root) {
        let parts = parts_of(s, root);
        let m = choose|m: int|
            {
                &&& 1 <= m
                &&& #[trigger] parts.contains(m)
                &&& forall|j: int| 1 <= j <= m ==> parts.contains(j)
                &&& forall|h: int| h > m ==> !parts.contains(h)
            };
        assert(parts.contains(l));
        assert(l <= m);
        assert(parts.contains(g));
        assert(part_present(s, root, g));
        assert(false);
    }
}

/// A session with no parts at all is never complete.
pub proof fn lemma_no_parts_incomplete(s: StagingStore, root: Seq<char>)
    requires
        forall|n: int| !#[trigger] part_present(s, root, n),
    ensures
        !upload_complete(s, root),
{
    if upload_complete(s, root) {
        let parts = parts_of(s, root);
        let m = choose|m: int|
            {
                &&& 1 <= m
                &&& #[trigger] parts.contains(m)
                &&& forall|j: int| 1 <= j <= m ==> parts.contains(j)
                &&& forall|h: int| h > m ==> !parts.contains(h)
            };
        assert(part_present(s, root, m));
        assert(false);
    }
}

/// Racing part uploads end with whichever write is ordered last, in
/// either order; neither write errs (`upload_part` always returns `Ok`).
/// Stated over the store's contents map, which `upload_part` extends by
/// exactly one binding.
pub proof fn lemma_last_write_wins(
    contents: Map<Seq<Seq<char>>, Seq<u8>>,
    name: Seq<Seq<char>>,
    first: Seq<u8>,
    last: Seq<u8>,
)
    ensures
        contents.insert(name, first).insert(name, last) =~= contents.insert(name, last),
        contents.insert(name, first).insert(name, last)[name] == last,
{
}


impl CloudStorageForMultipartConstruction {
    /// Reads a session's marker: the creation time it holds, when the
    /// marker exists and its body parses as a timestamp; nothing when the
    /// marker is missing or its body is unreadable (such a session is
    /// corrupt and eligible for removal).
    pub fn get_marker_contents(&self, root: &String) -> (r: Option<i64>)
        requires
            self.wf(),
        ensures
            r == if self.store.has_object(marker_path(root@)) {
                crate::timefmt::marker_ts(self.store.object_data(marker_path(root@)))
            } else {
                None::<i64>
            },
    {
        let mname = marker_name(root);
        match self.store.get(&mname) {
            Some(d) => crate::timefmt::parse_marker(d),
            None => None,
        }
    }
}

} // verus!
