use vstd::prelude::*;
use vstd::std_specs::iter::IteratorSpec;
use std::collections::HashMap;
use crate::LibError;
use crate::item::{spec_renewal_factor, LiItem, LiItemInstance};
use crate::dates::{months_after, MAX_TIMESTAMP};

verus! {

broadcast use vstd::std_specs::hash::group_hash_axioms;

/// A registered member, owning the checkout records of the items currently
/// out to them, keyed by item id.
pub struct Member {
    pub id: u32,
    pub items: HashMap<u32, LiItemInstance>,
}

/// The in-memory library state: the catalog keyed by item id, and the
/// members keyed by member id.
pub struct Library {
    items: HashMap<u32, LiItem>,
    members: HashMap<u32, Member>,
}

/// The set of members currently holding a checkout record for `item_id`.
pub open spec fn holders(members: Map<u32, Member>, item_id: u32) -> Set<u32> {
    members.dom().filter(|m: u32| members[m].items@.contains_key(item_id))
}

/// A catalog row is structurally valid when its available count does not
/// exceed its total count.
pub open spec fn row_valid(row: LiItem) -> bool {
    row.avail_copies <= row.copies
}

/// The catalog produced by loading `rows` over `base`, in order: valid rows
/// are inserted under their id (a later row overwrites an earlier one with
/// the same id), invalid rows are skipped.
pub open spec fn loaded_items(base: Map<u32, LiItem>, rows: Seq<LiItem>) -> Map<u32, LiItem>
    decreases rows.len(),
{
    if rows.len() == 0 {
        base
    } else {
        let prev = loaded_items(base, rows.drop_last());
        if row_valid(rows.last()) {
            prev.insert(rows.last().id, rows.last())
        } else {
            prev
        }
    }
}

/// How many of `rows` are structurally valid.
pub open spec fn loaded_count(rows: Seq<LiItem>) -> nat
    decreases rows.len(),
{
    if rows.len() == 0 {
        0
    } else {
        loaded_count(rows.drop_last()) + (if row_valid(rows.last()) {
            1nat
        } else {
            0nat
        })
    }
}

/// The catalog entry after one copy of `item` is handed out.
pub open spec fn issued_item(item: LiItem) -> LiItem {
    LiItem { avail_copies: (item.avail_copies - 1) as u32, ..item }
}

/// The catalog entry after one copy of `item` comes back.
pub open spec fn returned_item(item: LiItem) -> LiItem {
    LiItem { avail_copies: (item.avail_copies + 1) as u32, ..item }
}

/// The checkout record snapshotted from `item` at time `issued_at`: title and
/// id copied, the renewal factor derived from the format, and the due date
/// the issuance time advanced by that many months.
pub open spec fn checkout_record(item: LiItem, issued_at: i64) -> LiItemInstance {
    LiItemInstance {
        title: item.title,
        id: item.id,
        renew_factor: spec_renewal_factor(item.format@),
        due_date: months_after(issued_at, spec_renewal_factor(item.format@)),
        notice: false,
    }
}

/// How a successful issuance of `title_id` to the registered member
/// `member_id` at time `issued_at` relates the state before to the state
/// after: one copy fewer available, one more record held by that member,
/// everything else untouched.
pub open spec fn issue_ok(
    pre: Library,
    post: Library,
    title_id: u32,
    member_id: u32,
    issued_at: i64,
) -> bool {
    &&& pre.membership().contains_key(member_id)
    &&& pre.catalog().contains_key(title_id)
    &&& pre.catalog()[title_id].avail_copies > 0
    &&& !pre.membership()[member_id].items@.contains_key(title_id)
    &&& post.catalog() == pre.catalog().insert(title_id, issued_item(pre.catalog()[title_id]))
    &&& post.membership().dom() == pre.membership().dom()
    &&& (forall|m: u32| m != member_id && pre.membership().contains_key(m)
        ==> #[trigger] post.membership()[m] == pre.membership()[m])
    &&& post.membership()[member_id].id == pre.membership()[member_id].id
    &&& post.membership()[member_id].items@ == pre.membership()[member_id].items@.insert(
        title_id,
        checkout_record(pre.catalog()[title_id], issued_at),
    )
}

/// How a successful issuance that auto-creates the member `new_id` relates
/// the state before to the state after: one copy fewer available, and a
/// fresh member holding exactly the new record.
pub open spec fn issue_new_ok(
    pre: Library,
    post: Library,
    title_id: u32,
    new_id: u32,
    issued_at: i64,
) -> bool {
    &&& pre.catalog().contains_key(title_id)
    &&& pre.catalog()[title_id].avail_copies > 0
    &&& new_id == pre.membership().len() + 1
    &&& !pre.membership().contains_key(new_id)
    &&& post.catalog() == pre.catalog().insert(title_id, issued_item(pre.catalog()[title_id]))
    &&& post.membership().dom() == pre.membership().dom().insert(new_id)
    &&& (forall|m: u32| m != new_id && pre.membership().contains_key(m)
        ==> #[trigger] post.membership()[m] == pre.membership()[m])
    &&& post.membership()[new_id].id == new_id
    &&& post.membership()[new_id].items@ == Map::<u32, LiItemInstance>::empty().insert(
        title_id,
        checkout_record(pre.catalog()[title_id], issued_at),
    )
}

/// How a successful return of `title_id` by `member_id` relates the state
/// before to the state after: one copy more available, the member's record
/// for the item gone, everything else untouched.
pub open spec fn return_ok(pre: Library, post: Library, title_id: u32, member_id: u32) -> bool {
    &&& pre.membership().contains_key(member_id)
    &&& pre.membership()[member_id].items@.contains_key(title_id)
    &&& pre.catalog().contains_key(title_id)
    &&& post.catalog() == pre.catalog().insert(title_id, returned_item(pre.catalog()[title_id]))
    &&& post.membership().dom() == pre.membership().dom()
    &&& (forall|m: u32| m != member_id && pre.membership().contains_key(m)
        ==> #[trigger] post.membership()[m] == pre.membership()[m])
    &&& post.membership()[member_id].id == pre.membership()[member_id].id
    &&& post.membership()[member_id].items@ == pre.membership()[member_id].items@.remove(title_id)
}

/// Replacing (or adding) the member `m` with a value holding one more record,
/// for item `t`, adds `m` to the holders of `t` and changes the holders of no
/// other item.
proof fn lemma_holders_member_gains(pre: Map<u32, Member>, mv: Member, m: u32, t: u32)
    requires
        pre.dom().finite(),
        mv.items@.dom() == (if pre.contains_key(m) {
            pre[m].items@.dom().insert(t)
        } else {
            Set::<u32>::empty().insert(t)
        }),
        pre.contains_key(m) ==> !pre[m].items@.contains_key(t),
    ensures
        holders(pre.insert(m, mv), t).len() == holders(pre, t).len() + 1,
        forall|j: u32| j != t ==> #[trigger] holders(pre.insert(m, mv), j) == holders(pre, j),
{
    let post = pre.insert(m, mv);
    pre.dom().lemma_len_filter(|x: u32| pre[x].items@.contains_key(t));
    assert(mv.items@.dom().contains(t));
    assert(mv.items@.contains_key(t));
    assert(holders(post, t) =~= holders(pre, t).insert(m));
    assert(!holders(pre, t).contains(m));
    assert forall|j: u32| j != t implies #[trigger] holders(post, j) == holders(pre, j) by {
        if pre.contains_key(m) {
            assert(mv.items@.dom().contains(j) == pre[m].items@.dom().insert(t).contains(j));
            assert(mv.items@.contains_key(j) == pre[m].items@.contains_key(j));
        } else {
            assert(mv.items@.dom().contains(j) == Set::<u32>::empty().insert(t).contains(j));
            assert(!mv.items@.contains_key(j));
        }
        assert(holders(post, j) =~= holders(pre, j));
    };
}

/// Replacing the member `m` with a value that lost its record for item `t`
/// removes `m` from the holders of `t` and changes the holders of no other
/// item.
proof fn lemma_holders_member_loses(pre: Map<u32, Member>, mv: Member, m: u32, t: u32)
    requires
        pre.dom().finite(),
        pre.contains_key(m),
        pre[m].items@.contains_key(t),
        mv.items@.dom() == pre[m].items@.dom().remove(t),
    ensures
        holders(pre, t).len() >= 1,
        holders(pre.insert(m, mv), t).len() == holders(pre, t).len() - 1,
        forall|j: u32| j != t ==> #[trigger] holders(pre.insert(m, mv), j) == holders(pre, j),
{
    let post = pre.insert(m, mv);
    pre.dom().lemma_len_filter(|x: u32| pre[x].items@.contains_key(t));
    assert(!mv.items@.dom().contains(t));
    assert(!mv.items@.contains_key(t));
    assert(holders(pre, t).contains(m));
    if holders(pre, t).len() == 0 {
        holders(pre, t).lemma_len0_is_empty();
    }
    assert(holders(post, t) =~= holders(pre, t).remove(m));
    assert forall|j: u32| j != t implies #[trigger] holders(post, j) == holders(pre, j) by {
        assert(pre[m].items@.dom().contains(j) == mv.items@.dom().contains(j)) by {
            if pre[m].items@.dom().contains(j) {
                assert(pre[m].items@.dom().remove(t).contains(j));
            }
        }
        assert(pre[m].items@.contains_key(j) == mv.items@.contains_key(j));
        assert(holders(post, j) =~= holders(pre, j));
    };
}

/// What a faithful flat listing of a catalog map looks like: one entry per
/// item, each equal to the stored item, ids pairwise distinct, every stored
/// id present; the order is left open.
pub open spec fn catalog_listing_ok(r: Seq<LiItem>, items: Map<u32, LiItem>) -> bool {
    &&& r.len() == items.dom().len()
    &&& forall|i: int| 0 <= i < r.len() ==> items.contains_key((#[trigger] r[i]).id) && r[i]
        == items[r[i].id]
    &&& forall|i: int, j: int| 0 <= i < j < r.len() ==> r[i].id != r[j].id
    &&& forall|k: u32| #[trigger] items.contains_key(k) ==> exists|i: int|
        0 <= i < r.len() && (#[trigger] r[i]).id == k
}

/// What a faithful flat listing of one member's checkout records looks
/// like: one `(item id, title)` pair per record, ids pairwise distinct,
/// every record's id present; the order is left open.
pub open spec fn lists_items(r: Seq<(u32, String)>, items: Map<u32, LiItemInstance>) -> bool {
    &&& r.len() == items.dom().len()
    &&& forall|i: int| 0 <= i < r.len() ==> items.contains_key((#[trigger] r[i]).0) && r[i].1
        == items[r[i].0].title
    &&& forall|i: int, j: int| 0 <= i < j < r.len() ==> r[i].0 != r[j].0
    &&& forall|k: u32| #[trigger] items.contains_key(k) ==> exists|i: int|
        0 <= i < r.len() && (#[trigger] r[i]).0 == k
}

/// What a faithful flat listing of the membership looks like: one entry per
/// member, pairing the member id with a faithful listing of their records;
/// member ids pairwise distinct, every member present; the order is left
/// open.
pub open spec fn members_listing_ok(
    r: Seq<(u32, Vec<(u32, String)>)>,
    members: Map<u32, Member>,
) -> bool {
    &&& r.len() == members.dom().len()
    &&& forall|i: int| 0 <= i < r.len() ==> members.contains_key((#[trigger] r[i]).0)
        && lists_items(r[i].1@, members[r[i].0].items@)
    &&& forall|i: int, j: int| 0 <= i < j < r.len() ==> r[i].0 != r[j].0
    &&& forall|k: u32| #[trigger] members.contains_key(k) ==> exists|i: int|
        0 <= i < r.len() && (#[trigger] r[i]).0 == k
}

/// The `(item id, title)` pairs of one member's current checkout records,
/// in no particular order.
pub fn member_checkouts(member: &Member) -> (r: Vec<(u32, String)>)
    ensures
        lists_items(r@, member.items@),
{
    let mut out: Vec<(u32, String)> = Vec::new();
    let ghost s = vstd::std_specs::hash::spec_hash_map_iter(&member.items).remaining();
    for kv in it: member.items.iter()
        invariant
            it.seq() == s,
            s.no_duplicates(),
            out@.len() == it.index(),
            forall|i: int| 0 <= i < out@.len() ==> (#[trigger] out@[i]).0 == *s[i].0
                && out@[i].1 == (*s[i].1).title,
    {
        out.push((*kv.0, kv.1.title.clone()));
    }
    proof {
        let m = member.items@;
        assert(out@.len() == s.len());
        assert forall|i: int| 0 <= i < out@.len() implies m.contains_key((#[trigger] out@[i]).0)
            && out@[i].1 == m[out@[i].0].title by {
            assert(m.contains_key(*s[i].0) && m[*s[i].0] == *s[i].1);
        }
        assert forall|i: int, j: int| 0 <= i < j < out@.len() implies out@[i].0 != out@[j].0 by {
            assert(m.contains_key(*s[i].0) && m[*s[i].0] == *s[i].1);
            assert(m.contains_key(*s[j].0) && m[*s[j].0] == *s[j].1);
            if out@[i].0 == out@[j].0 {
                assert(s[i] == s[j]);
                assert(false);
            }
        }
        assert forall|k: u32| #[trigger] m.contains_key(k) implies exists|i: int|
            0 <= i < out@.len() && (#[trigger] out@[i]).0 == k by {
            assert(s.contains((&k, &m[k])));
            let i = choose|i: int| 0 <= i < s.len() && s[i] == (&k, &m[k]);
            assert(out@[i].0 == k);
        }
    }
    out
}

/// Net-zero round trip: issuing an item to a member and then returning that
/// same item restores the catalog exactly — in particular `avail_copies` —
/// and leaves the member's checkout records, and every other member, as
/// they were before the issuance.
pub proof fn lemma_issue_return_round_trip(
    lib0: Library,
    lib1: Library,
    lib2: Library,
    title_id: u32,
    member_id: u32,
    issued_at: i64,
)
    requires
        issue_ok(lib0, lib1, title_id, member_id, issued_at),
        return_ok(lib1, lib2, title_id, member_id),
    ensures
        lib2.catalog() == lib0.catalog(),
        lib2.catalog()[title_id].avail_copies == lib0.catalog()[title_id].avail_copies,
        lib2.membership().dom() == lib0.membership().dom(),
        lib2.membership()[member_id].items@ == lib0.membership()[member_id].items@,
        !lib2.membership()[member_id].items@.contains_key(title_id),
        forall|m: u32| m != member_id && lib0.membership().contains_key(m)
            ==> #[trigger] lib2.membership()[m] == lib0.membership()[m],
{
    assert(returned_item(issued_item(lib0.catalog()[title_id])) == lib0.catalog()[title_id]);
    assert(lib2.catalog() =~= lib0.catalog());
    assert(lib2.membership()[member_id].items@ =~= lib0.membership()[member_id].items@);
    assert forall|m: u32| m != member_id && lib0.membership().contains_key(m) implies #[trigger]
        lib2.membership()[m] == lib0.membership()[m] by {
        assert(lib1.membership()[m] == lib0.membership()[m]);
        assert(lib1.membership().contains_key(m));
        assert(lib2.membership()[m] == lib1.membership()[m]);
    }
}

/// Net-zero round trip for an issuance that auto-created its member: after
/// the new member returns the item, the catalog is exactly as before the
/// issuance and the member holds no records at all.
pub proof fn lemma_new_member_issue_return_round_trip(
    lib0: Library,
    lib1: Library,
    lib2: Library,
    title_id: u32,
    new_id: u32,
    issued_at: i64,
)
    requires
        issue_new_ok(lib0, lib1, title_id, new_id, issued_at),
        return_ok(lib1, lib2, title_id, new_id),
    ensures
        lib2.catalog() == lib0.catalog(),
        lib2.catalog()[title_id].avail_copies == lib0.catalog()[title_id].avail_copies,
        lib2.membership()[new_id].items@ == Map::<u32, LiItemInstance>::empty(),
        forall|m: u32| m != new_id && lib0.membership().contains_key(m)
            ==> #[trigger] lib2.membership()[m] == lib0.membership()[m],
{
    assert(returned_item(issued_item(lib0.catalog()[title_id])) == lib0.catalog()[title_id]);
    assert(lib2.catalog() =~= lib0.catalog());
    assert(lib2.membership()[new_id].items@ =~= Map::<u32, LiItemInstance>::empty());
    assert forall|m: u32| m != new_id && lib0.membership().contains_key(m) implies #[trigger]
        lib2.membership()[m] == lib0.membership()[m] by {
        assert(lib1.membership()[m] == lib0.membership()[m]);
        assert(lib1.membership().contains_key(m));
        assert(lib2.membership()[m] == lib1.membership()[m]);
    }
}

/// Auto-created member ids grow strictly within a session: a second
/// auto-creation hands out the id right after the first, and neither id
/// collides with a member registered when it was handed out.
pub proof fn lemma_new_member_ids_increase(
    lib0: Library,
    lib1: Library,
    lib2: Library,
    title1: u32,
    id1: u32,
    at1: i64,
    title2: u32,
    id2: u32,
    at2: i64,
)
    requires
        issue_new_ok(lib0, lib1, title1, id1, at1),
        issue_new_ok(lib1, lib2, title2, id2, at2),
    ensures
        id2 == id1 + 1,
        id1 < id2,
        !lib0.membership().contains_key(id1),
        !lib1.membership().contains_key(id2),
        !lib0.membership().contains_key(id2),
{
    assert(lib1.membership().dom() == lib0.membership().dom().insert(id1));
    assert(lib1.membership().len() == lib0.membership().len() + 1);
    assert(!lib0.membership().contains_key(id2)) by {
        assert(!lib1.membership().dom().contains(id2));
    }
}

proof fn lemma_no_rows_loaded(base: Map<u32, LiItem>, rows: Seq<LiItem>)
    requires
        loaded_count(rows) == 0,
    ensures
        loaded_items(base, rows) == base,
    decreases rows.len(),
{
    if rows.len() > 0 {
        lemma_no_rows_loaded(base, rows.drop_last());
    }
}

impl Library {
    /// The catalog, as a map from item id to item.
    pub closed spec fn catalog(self) -> Map<u32, LiItem> {
        self.items@
    }

    /// The membership, as a map from member id to member.
    pub closed spec fn membership(self) -> Map<u32, Member> {
        self.members@
    }

    /// What well-formedness asks of the catalog entry under `id`: it sits
    /// under its own id, and the copies out on loan account for the gap
    /// between the total and the available count, so `avail_copies <=
    /// copies` always holds.
    pub open spec fn item_entry_wf(self, id: u32) -> bool {
        &&& self.catalog()[id].id == id
        &&& self.catalog()[id].avail_copies + holders(self.membership(), id).len()
            <= self.catalog()[id].copies
    }

    /// Catalog side of well-formedness.
    pub open spec fn items_wf(self) -> bool {
        forall|id: u32| self.catalog().contains_key(id) ==> #[trigger] self.item_entry_wf(id)
    }

    /// What well-formedness asks of the member under `m`: ids were assigned
    /// sequentially from 1, the member sits under its own id, and each of
    /// their checkout records sits under the id of a catalog item.
    pub open spec fn member_entry_wf(self, m: u32) -> bool {
        &&& 1 <= m
        &&& m <= self.membership().len()
        &&& self.membership()[m].id == m
        &&& forall|i: u32| #[trigger] self.membership()[m].items@.contains_key(i)
            ==> self.membership()[m].items@[i].id == i && self.catalog().contains_key(i)
    }

    /// Membership side of well-formedness.
    pub open spec fn members_wf(self) -> bool {
        forall|m: u32| self.membership().contains_key(m) ==> #[trigger] self.member_entry_wf(m)
    }

    pub open spec fn wf(self) -> bool {
        self.items_wf() && self.members_wf()
    }

    /// An empty library: no catalog items, no members.
    pub fn new() -> (lib: Library)
        ensures
            lib.wf(),
            lib.catalog() == Map::<u32, LiItem>::empty(),
            lib.membership() == Map::<u32, Member>::empty(),
    {
        Library { items: HashMap::new(), members: HashMap::new() }
    }

    /// Finds the catalog item with the given id.
    pub fn lookup(&self, item_id: u32) -> (r: Option<&LiItem>)
        ensures
            self.catalog().contains_key(item_id) ==> (r matches Some(item) && *item
                == self.catalog()[item_id]),
            !self.catalog().contains_key(item_id) ==> r is None,
    {
        self.items.get(&item_id)
    }

    /// Bulk-loads the catalog from pre-parsed rows, at session start
    /// (before any member is registered). Valid rows are inserted under
    /// their id, a later duplicate overwriting an earlier row; rows whose
    /// available count exceeds their total count are skipped. The load
    /// fails, changing nothing, exactly when no row is valid; otherwise it
    /// reports how many rows were taken. Afterwards every item satisfies
    /// `avail_copies <= copies`.
    pub fn load_catalog(&mut self, rows: Vec<LiItem>) -> (r: Result<usize, LibError>)
        requires
            old(self).wf(),
            old(self).membership().len() == 0,
        ensures
            final(self).wf(),
            final(self).membership() == old(self).membership(),
            final(self).catalog() == loaded_items(old(self).catalog(), rows@),
            r == (if loaded_count(rows@) == 0 {
                Result::<usize, LibError>::Err(LibError::LoadFailed)
            } else {
                Result::<usize, LibError>::Ok(loaded_count(rows@) as usize)
            }),
            loaded_count(rows@) == 0 ==> final(self).catalog() == old(self).catalog(),
            forall|id: u32| final(self).catalog().contains_key(id)
                ==> (#[trigger] final(self).catalog()[id]).avail_copies
                <= final(self).catalog()[id].copies,
    {
        proof {
            assert forall|id: u32| self.items@.contains_key(id) implies {
                &&& (#[trigger] self.items@[id]).id == id
                &&& self.items@[id].avail_copies <= self.items@[id].copies
            } by {
                assert(old(self).item_entry_wf(id));
            }
        }
        let rows_len = rows.len();
        let mut count: usize = 0;
        let mut idx: usize = 0;
        while idx < rows_len
            invariant
                idx <= rows_len == rows@.len(),
                count <= idx,
                self.members@ == old(self).members@,
                self.items@ == loaded_items(old(self).items@, rows@.take(idx as int)),
                count == loaded_count(rows@.take(idx as int)),
                old(self).wf(),
                forall|id: u32| self.items@.contains_key(id) ==> {
                    &&& (#[trigger] self.items@[id]).id == id
                    &&& self.items@[id].avail_copies <= self.items@[id].copies
                },
            decreases rows_len - idx,
        {
            proof {
                assert(rows@.take(idx + 1).drop_last() =~= rows@.take(idx as int));
                assert(rows@.take(idx + 1).last() == rows@[idx as int]);
            }
            let row = rows[idx].clone();
            if row.avail_copies <= row.copies {
                self.items.insert(row.id, row);
                count += 1;
            }
            idx += 1;
        }
        proof {
            assert(rows@.take(rows_len as int) =~= rows@);
            self.lemma_empty_membership_holders();
            assert(self.items_wf()) by {
                assert forall|id: u32| self.catalog().contains_key(id) implies #[trigger] self
                    .item_entry_wf(id) by {
                    assert(holders(self.membership(), id).len() == 0);
                }
            }
            assert(self.members_wf()) by {
                assert forall|m: u32| self.membership().contains_key(m) implies #[trigger] self
                    .member_entry_wf(m) by {
                    self.membership().dom().lemma_len0_is_empty();
                    assert(false);
                }
            }
        }
        if count == 0 {
            proof {
                lemma_no_rows_loaded(old(self).items@, rows@);
            }
            Err(LibError::LoadFailed)
        } else {
            Ok(count)
        }
    }

    /// Issues the item `title_id` to the already-registered member
    /// `member_id`, at time `issued_at` (seconds since the Unix epoch):
    /// takes one available copy and hands the member a checkout record due
    /// the format-derived number of months after `issued_at`. Fails, and
    /// then changes nothing, when the member is unknown, the item is
    /// unknown, no copy is available, or the member already holds the item
    /// (re-issuing an item a member holds is rejected rather than silently
    /// overwriting their record).
    pub fn issue_to_member(&mut self, title_id: u32, member_id: u32, issued_at: i64) -> (r:
        Result<(), LibError>)
        requires
            old(self).wf(),
            0 <= issued_at <= MAX_TIMESTAMP,
        ensures
            final(self).wf(),
            r == (if !old(self).membership().contains_key(member_id) {
                Result::<(), LibError>::Err(LibError::MemberNotFound)
            } else if !old(self).catalog().contains_key(title_id) {
                Result::<(), LibError>::Err(LibError::ItemNotFound)
            } else if old(self).catalog()[title_id].avail_copies == 0 {
                Result::<(), LibError>::Err(LibError::NoCopiesAvailable)
            } else if old(self).membership()[member_id].items@.contains_key(title_id) {
                Result::<(), LibError>::Err(LibError::AlreadyCheckedOut)
            } else {
                Result::<(), LibError>::Ok(())
            }),
            r is Err ==> *final(self) == *old(self),
            r is Ok ==> issue_ok(*old(self), *final(self), title_id, member_id, issued_at),
    {
        if !self.members.contains_key(&member_id) {
            return Err(LibError::MemberNotFound);
        }
        let avail = match self.items.get(&title_id) {
            Some(item) => item.avail_copies,
            None => {
                return Err(LibError::ItemNotFound);
            },
        };
        if avail == 0 {
            return Err(LibError::NoCopiesAvailable);
        }
        if self.members.get(&member_id).unwrap().items.contains_key(&title_id) {
            return Err(LibError::AlreadyCheckedOut);
        }

        let mut item = self.items.remove(&title_id).unwrap();
        let inst = item.create_instance(issued_at);
        self.items.insert(title_id, item);
        let mut member = self.members.remove(&member_id).unwrap();
        member.items.insert(title_id, inst);
        self.members.insert(member_id, member);

        proof {
            let pre = *old(self);
            let post = *self;
            assert(post.catalog() =~= pre.catalog().insert(
                title_id,
                issued_item(pre.catalog()[title_id]),
            ));
            assert(post.membership() =~= pre.membership().insert(
                member_id,
                post.membership()[member_id],
            ));
            assert(post.membership().dom() =~= pre.membership().dom());
            lemma_holders_member_gains(
                pre.membership(),
                post.membership()[member_id],
                member_id,
                title_id,
            );
            assert(post.items_wf()) by {
                assert forall|id: u32| post.catalog().contains_key(id) implies #[trigger] post
                    .item_entry_wf(id) by {
                    assert(pre.item_entry_wf(id));
                    if id != title_id {
                        assert(holders(post.membership(), id) == holders(pre.membership(), id));
                    }
                }
            }
            assert(post.members_wf()) by {
                assert(post.membership().len() == pre.membership().len());
                assert forall|m: u32| post.membership().contains_key(m) implies #[trigger] post
                    .member_entry_wf(m) by {
                    assert(pre.member_entry_wf(m));
                    if m == member_id {
                        assert(pre.item_entry_wf(title_id));
                        assert forall|i: u32| #[trigger] post.membership()[m].items@.contains_key(
                            i,
                        ) implies post.membership()[m].items@[i].id == i
                            && post.catalog().contains_key(i) by {
                            if i != title_id {
                                assert(pre.membership()[member_id].items@.contains_key(i));
                            }
                        }
                    } else {
                        assert(post.membership()[m] == pre.membership()[m]);
                        assert forall|i: u32| #[trigger] post.membership()[m].items@.contains_key(
                            i,
                        ) implies post.membership()[m].items@[i].id == i
                            && post.catalog().contains_key(i) by {
                            assert(pre.membership()[m].items@.contains_key(i));
                        }
                    }
                }
            }
        }
        Ok(())
    }

    /// Issues the item `title_id` to a newly created member, at time
    /// `issued_at`: the new member id is one past the current member count,
    /// which under well-formedness collides with no existing id. Fails,
    /// and then changes nothing, when the item is unknown or no copy is
    /// available; on success returns the new member id.
    pub fn issue_to_new_member(&mut self, title_id: u32, issued_at: i64) -> (r: Result<
        u32,
        LibError,
    >)
        requires
            old(self).wf(),
            0 <= issued_at <= MAX_TIMESTAMP,
            old(self).membership().len() < u32::MAX,
        ensures
            final(self).wf(),
            r == (if !old(self).catalog().contains_key(title_id) {
                Result::<u32, LibError>::Err(LibError::ItemNotFound)
            } else if old(self).catalog()[title_id].avail_copies == 0 {
                Result::<u32, LibError>::Err(LibError::NoCopiesAvailable)
            } else {
                Result::<u32, LibError>::Ok((old(self).membership().len() + 1) as u32)
            }),
            r is Err ==> *final(self) == *old(self),
            r matches Ok(new_id) ==> issue_new_ok(
                *old(self),
                *final(self),
                title_id,
                new_id,
                issued_at,
            ),
    {
        let avail = match self.items.get(&title_id) {
            Some(item) => item.avail_copies,
            None => {
                return Err(LibError::ItemNotFound);
            },
        };
        if avail == 0 {
            return Err(LibError::NoCopiesAvailable);
        }

        let new_id: u32 = (self.members.len() as u32) + 1;
        let mut item = self.items.remove(&title_id).unwrap();
        let inst = item.create_instance(issued_at);
        self.items.insert(title_id, item);
        let mut member = Member { id: new_id, items: HashMap::new() };
        member.items.insert(title_id, inst);
        self.members.insert(new_id, member);

        proof {
            let pre = *old(self);
            let post = *self;
            assert(!pre.membership().contains_key(new_id)) by {
                if pre.membership().contains_key(new_id) {
                    assert(pre.member_entry_wf(new_id));
                }
            }
            assert(post.catalog() =~= pre.catalog().insert(
                title_id,
                issued_item(pre.catalog()[title_id]),
            ));
            assert(post.membership()[new_id].items@ =~= Map::<u32, LiItemInstance>::empty().insert(
                title_id,
                checkout_record(pre.catalog()[title_id], issued_at),
            ));
            lemma_holders_member_gains(
                pre.membership(),
                post.membership()[new_id],
                new_id,
                title_id,
            );
            assert(post.membership().len() == pre.membership().len() + 1);
            assert(post.items_wf()) by {
                assert forall|id: u32| post.catalog().contains_key(id) implies #[trigger] post
                    .item_entry_wf(id) by {
                    assert(pre.item_entry_wf(id));
                    if id != title_id {
                        assert(holders(post.membership(), id) == holders(pre.membership(), id));
                    }
                }
            }
            assert(post.members_wf()) by {
                assert forall|m: u32| post.membership().contains_key(m) implies #[trigger] post
                    .member_entry_wf(m) by {
                    if m != new_id {
                        assert(pre.membership().contains_key(m));
                        assert(pre.member_entry_wf(m));
                        assert(post.membership()[m] == pre.membership()[m]);
                        assert forall|i: u32| #[trigger] post.membership()[m].items@.contains_key(
                            i,
                        ) implies post.membership()[m].items@[i].id == i
                            && post.catalog().contains_key(i) by {
                            assert(pre.membership()[m].items@.contains_key(i));
                        }
                    } else {
                        assert(pre.item_entry_wf(title_id));
                        assert forall|i: u32| #[trigger] post.membership()[m].items@.contains_key(
                            i,
                        ) implies post.membership()[m].items@[i].id == i
                            && post.catalog().contains_key(i) by {
                            assert(Map::<u32, LiItemInstance>::empty().insert(
                                title_id,
                                checkout_record(pre.catalog()[title_id], issued_at),
                            ).contains_key(i));
                            assert(i == title_id);
                        }
                    }
                }
            }
        }
        Ok(new_id)
    }

    /// Returns the item `title_id` checked out by `member_id`: removes the
    /// member's checkout record, puts the copy back in the catalog, and
    /// hands back the updated catalog entry for display. Fails, and then
    /// changes nothing, when the member is unknown or holds no record for
    /// the item. (The defensive "item vanished from the catalog" failure
    /// of the checkout ledger cannot arise here: items are never deleted,
    /// and well-formedness guarantees every record points at a catalog
    /// entry.)
    pub fn book_return(&mut self, title_id: u32, member_id: u32) -> (r: Result<LiItem, LibError>)
        requires
            old(self).wf(),
        ensures
            final(self).wf(),
            !old(self).membership().contains_key(member_id) ==> r == Result::<
                LiItem,
                LibError,
            >::Err(LibError::MemberNotFound) && *final(self) == *old(self),
            old(self).membership().contains_key(member_id) && !old(
                self,
            ).membership()[member_id].items@.contains_key(title_id) ==> r == Result::<
                LiItem,
                LibError,
            >::Err(LibError::ItemNotCheckedOut) && *final(self) == *old(self),
            old(self).membership().contains_key(member_id) && old(
                self,
            ).membership()[member_id].items@.contains_key(title_id) ==> {
                &&& r matches Ok(item) && item == returned_item(old(self).catalog()[title_id])
                &&& return_ok(*old(self), *final(self), title_id, member_id)
            },
    {
        if !self.members.contains_key(&member_id) {
            return Err(LibError::MemberNotFound);
        }
        if !self.members.get(&member_id).unwrap().items.contains_key(&title_id) {
            return Err(LibError::ItemNotCheckedOut);
        }

        proof {
            assert(old(self).member_entry_wf(member_id));
            assert(old(self).membership()[member_id].items@.contains_key(title_id));
            assert(old(self).catalog().contains_key(title_id));
            assert(old(self).item_entry_wf(title_id));
        }
        let mut member = self.members.remove(&member_id).unwrap();
        let _inst = member.items.remove(&title_id).unwrap();
        let mut item = self.items.remove(&title_id).unwrap();
        proof {
            lemma_holders_member_loses(old(self).membership(), member, member_id, title_id);
        }
        item.avail_copies = item.avail_copies + 1;
        let out = item.clone();
        self.items.insert(title_id, item);
        self.members.insert(member_id, member);

        proof {
            let pre = *old(self);
            let post = *self;
            assert(post.catalog() =~= pre.catalog().insert(
                title_id,
                returned_item(pre.catalog()[title_id]),
            ));
            assert(post.membership() =~= pre.membership().insert(
                member_id,
                post.membership()[member_id],
            ));
            assert(post.membership().dom() =~= pre.membership().dom());
            lemma_holders_member_loses(
                pre.membership(),
                post.membership()[member_id],
                member_id,
                title_id,
            );
            assert(post.items_wf()) by {
                assert forall|id: u32| post.catalog().contains_key(id) implies #[trigger] post
                    .item_entry_wf(id) by {
                    assert(pre.item_entry_wf(id));
                    if id != title_id {
                        assert(holders(post.membership(), id) == holders(pre.membership(), id));
                    }
                }
            }
            assert(post.members_wf()) by {
                assert(post.membership().len() == pre.membership().len());
                assert forall|m: u32| post.membership().contains_key(m) implies #[trigger] post
                    .member_entry_wf(m) by {
                    assert(pre.member_entry_wf(m));
                    if m == member_id {
                        assert forall|i: u32| #[trigger] post.membership()[m].items@.contains_key(
                            i,
                        ) implies post.membership()[m].items@[i].id == i
                            && post.catalog().contains_key(i) by {
                            assert(pre.membership()[member_id].items@.contains_key(i));
                        }
                    } else {
                        assert(post.membership()[m] == pre.membership()[m]);
                        assert forall|i: u32| #[trigger] post.membership()[m].items@.contains_key(
                            i,
                        ) implies post.membership()[m].items@[i].id == i
                            && post.catalog().contains_key(i) by {
                            assert(pre.membership()[m].items@.contains_key(i));
                        }
                    }
                }
            }
        }
        Ok(out)
    }

    /// How many members are registered.
    pub fn member_count(&self) -> (n: usize)
        ensures
            n == self.membership().len(),
    {
        self.members.len()
    }

    /// The checkout record that `member_id` currently holds for `item_id`,
    /// if both the member and such a record exist.
    pub fn member_record(&self, member_id: u32, item_id: u32) -> (r: Option<&LiItemInstance>)
        ensures
            self.membership().contains_key(member_id)
                && self.membership()[member_id].items@.contains_key(item_id) ==> (r matches Some(
                inst,
            ) && *inst == self.membership()[member_id].items@[item_id]),
            !(self.membership().contains_key(member_id)
                && self.membership()[member_id].items@.contains_key(item_id)) ==> r is None,
    {
        match self.members.get(&member_id) {
            Some(member) => member.items.get(&item_id),
            None => None,
        }
    }

    /// All catalog items, in no particular order (the order the underlying
    /// map yields them, which is not stable).
    pub fn query_catalog(&self) -> (r: Vec<LiItem>)
        requires
            self.wf(),
        ensures
            catalog_listing_ok(r@, self.catalog()),
    {
        let mut out: Vec<LiItem> = Vec::new();
        let ghost s = vstd::std_specs::hash::spec_hash_map_iter(&self.items).remaining();
        for kv in it: self.items.iter()
            invariant
                it.seq() == s,
                s.no_duplicates(),
                out@.len() == it.index(),
                forall|i: int| 0 <= i < out@.len() ==> out@[i] == *(#[trigger] s[i]).1,
                self.wf(),
        {
            out.push(kv.1.clone());
        }
        proof {
            let m = self.items@;
            assert(out@.len() == s.len());
            assert forall|i: int| 0 <= i < out@.len() implies m.contains_key(
                (#[trigger] out@[i]).id,
            ) && out@[i] == m[out@[i].id] by {
                assert(m.contains_key(*s[i].0) && m[*s[i].0] == *s[i].1);
                assert(self.item_entry_wf(*s[i].0));
            }
            assert forall|i: int, j: int| 0 <= i < j < out@.len() implies out@[i].id
                != out@[j].id by {
                assert(m.contains_key(*s[i].0) && m[*s[i].0] == *s[i].1);
                assert(m.contains_key(*s[j].0) && m[*s[j].0] == *s[j].1);
                assert(self.item_entry_wf(*s[i].0));
                assert(self.item_entry_wf(*s[j].0));
                if out@[i].id == out@[j].id {
                    assert(s[i] == s[j]);
                    assert(false);
                }
            }
            assert forall|k: u32| #[trigger] m.contains_key(k) implies exists|i: int|
                0 <= i < out@.len() && (#[trigger] out@[i]).id == k by {
                assert(s.contains((&k, &m[k])));
                let i = choose|i: int| 0 <= i < s.len() && s[i] == (&k, &m[k]);
                assert(self.item_entry_wf(k));
                assert(out@[i].id == k);
            }
        }
        out
    }

    /// The members and what they hold, in no particular order: each entry
    /// is a member id with the ids and titles of the items out to them.
    pub fn query_members(&self) -> (r: Vec<(u32, Vec<(u32, String)>)>)
        ensures
            members_listing_ok(r@, self.membership()),
    {
        let mut out: Vec<(u32, Vec<(u32, String)>)> = Vec::new();
        let ghost s = vstd::std_specs::hash::spec_hash_map_iter(&self.members).remaining();
        for kv in it: self.members.iter()
            invariant
                it.seq() == s,
                s.no_duplicates(),
                out@.len() == it.index(),
                forall|i: int| 0 <= i < out@.len() ==> (#[trigger] out@[i]).0 == *s[i].0
                    && lists_items(out@[i].1@, (*s[i].1).items@),
        {
            let row = member_checkouts(kv.1);
            out.push((*kv.0, row));
        }
        proof {
            let m = self.members@;
            assert(out@.len() == s.len());
            assert forall|i: int| 0 <= i < out@.len() implies m.contains_key(
                (#[trigger] out@[i]).0,
            ) && lists_items(out@[i].1@, m[out@[i].0].items@) by {
                assert(m.contains_key(*s[i].0) && m[*s[i].0] == *s[i].1);
            }
            assert forall|i: int, j: int| 0 <= i < j < out@.len() implies out@[i].0
                != out@[j].0 by {
                assert(m.contains_key(*s[i].0) && m[*s[i].0] == *s[i].1);
                assert(m.contains_key(*s[j].0) && m[*s[j].0] == *s[j].1);
                if out@[i].0 == out@[j].0 {
                    assert(s[i] == s[j]);
                    assert(false);
                }
            }
            assert forall|k: u32| #[trigger] m.contains_key(k) implies exists|i: int|
                0 <= i < out@.len() && (#[trigger] out@[i]).0 == k by {
                assert(s.contains((&k, &m[k])));
                let i = choose|i: int| 0 <= i < s.len() && s[i] == (&k, &m[k]);
                assert(out@[i].0 == k);
            }
        }
        out
    }

    /// With no members registered, no item has a holder.
    proof fn lemma_empty_membership_holders(self)
        requires
            self.membership().len() == 0,
            self.membership().dom().finite(),
        ensures
            forall|id: u32| #[trigger] holders(self.membership(), id).len() == 0,
    {
        assert forall|id: u32| #[trigger] holders(self.membership(), id).len() == 0 by {
            self.membership().dom().lemma_len_filter(
                |m: u32| self.membership()[m].items@.contains_key(id),
            );
            assert(holders(self.membership(), id) =~= Set::<u32>::empty());
        }
    }
}

} // verus!
