//! The replay of one change file: the file operations on the object store
//! and the grouping of deltas by changeset.
use vstd::prelude::*;
use crate::objects::{object_changeset, object_id, Action, Delta};
use crate::changesets::contains_id;

verus! {

/// What the replay reads of a delta: its action, its changeset and the id
/// of its object.
pub open spec fn delta_key(d: Delta) -> (Action, u64, u64) {
    (d.action, object_changeset(d.object), object_id(d.object))
}

pub open spec fn delta_keys(ds: Seq<Delta>) -> Seq<(Action, u64, u64)> {
    ds.map_values(|d: Delta| delta_key(d))
}

/// `s` without the occurrences of `x`.
pub open spec fn without(s: Seq<u64>, x: u64) -> Seq<u64> {
    s.filter(|y: u64| y != x)
}

/// The ids whose files changeset `c` adds or changes, after the deltas
/// `ks`, in order: each create or modify in `c` appends its id, unless `c`
/// deleted that id before; each delete in `c` takes the entries of its id
/// out. So a delete wins over every create and modify of the same id in the
/// same changeset, before or after it.
pub open spec fn added_ids(ks: Seq<(Action, u64, u64)>, c: u64) -> Seq<u64>
    decreases ks.len(),
{
    if ks.len() == 0 {
        Seq::empty()
    } else {
        let prev = added_ids(ks.drop_last(), c);
        let k = ks.last();
        if k.1 != c {
            prev
        } else if k.0 == Action::Delete {
            without(prev, k.2)
        } else if removed_ids(ks.drop_last(), c).contains(k.2) {
            prev
        } else {
            prev.push(k.2)
        }
    }
}

/// The ids whose files changeset `c` removes, after the deltas `ks`, in
/// order.
pub open spec fn removed_ids(ks: Seq<(Action, u64, u64)>, c: u64) -> Seq<u64>
    decreases ks.len(),
{
    if ks.len() == 0 {
        Seq::empty()
    } else {
        let prev = removed_ids(ks.drop_last(), c);
        let k = ks.last();
        if k.1 == c && k.0 == Action::Delete {
            prev.push(k.2)
        } else {
            prev
        }
    }
}

/// Some delta of `ks` belongs to changeset `c`.
pub open spec fn touches(ks: Seq<(Action, u64, u64)>, c: u64) -> bool {
    exists|i: int| 0 <= i < ks.len() && (#[trigger] ks[i]).1 == c
}

/// The deltas of one changeset in one change file, as object ids.
pub struct ChangesetGroup {
    pub id: u64,
    pub added: Vec<u64>,
    pub removed: Vec<u64>,
}

/// `gs` holds one group for each changeset that `ks` touches, in ascending
/// order of id, each with the ids that the changeset adds and removes.
pub open spec fn groups_of(gs: Seq<ChangesetGroup>, ks: Seq<(Action, u64, u64)>) -> bool {
    &&& forall|i: int, j: int| #![trigger gs[i], gs[j]] 0 <= i < j < gs.len() ==> gs[i].id < gs[j].id
    &&& forall|i: int|
        #![trigger gs[i]]
        0 <= i < gs.len() ==> {
            &&& touches(ks, gs[i].id)
            &&& gs[i].added@ == added_ids(ks, gs[i].id)
            &&& gs[i].removed@ == removed_ids(ks, gs[i].id)
        }
    &&& forall|c: u64| touches(ks, c) ==> exists|i: int| 0 <= i < gs.len() && (#[trigger] gs[i]).id == c
}

proof fn lemma_untouched(ks: Seq<(Action, u64, u64)>, c: u64)
    requires
        !touches(ks, c),
    ensures
        added_ids(ks, c) == Seq::<u64>::empty(),
        removed_ids(ks, c) == Seq::<u64>::empty(),
    decreases ks.len(),
{
    if ks.len() > 0 {
        let p = ks.drop_last();
        assert(!touches(p, c)) by {
            if touches(p, c) {
                let i = choose|i: int| 0 <= i < p.len() && (#[trigger] p[i]).1 == c;
                assert(ks[i] == p[i]);
            }
        }
        assert(ks[ks.len() - 1] == ks.last());
        lemma_untouched(p, c);
    }
}

/// Removes every occurrence of `x`.
fn remove_all(v: &mut Vec<u64>, x: u64)
    ensures
        final(v)@ == without(old(v)@, x),
{
    let ghost s = v@;
    let mut out: Vec<u64> = Vec::new();
    let mut i: usize = 0;
    while i < v.len()
        invariant
            s == v@,
            i <= v@.len(),
            out@ == without(s.take(i as int), x),
        decreases v@.len() - i,
    {
        assert(s.take(i + 1).drop_last() =~= s.take(i as int));
        assert(s.take(i + 1).last() == s[i as int]);
        reveal(Seq::filter);
        if v[i] != x {
            out.push(v[i]);
        }
        i = i + 1;
    }
    assert(s.take(s.len() as int) =~= s);
    *v = out;
}

/// Groups the deltas of a change file by changeset, in ascending order of
/// changeset id. A group lists, in input order, the ids that its changeset
/// creates or modifies and those that it deletes; an id that the changeset
/// deletes is left out of the first list (the delete wins).
#[verifier::rlimit(60)]
pub fn group_by_changeset(deltas: &Vec<Delta>) -> (r: Vec<ChangesetGroup>)
    ensures
        groups_of(r@, delta_keys(deltas@)),
{
    let ghost ks = delta_keys(deltas@);
    let mut groups: Vec<ChangesetGroup> = Vec::new();
    let mut i: usize = 0;
    assert(ks.take(0) =~= Seq::<(Action, u64, u64)>::empty());
    while i < deltas.len()
        invariant
            ks == delta_keys(deltas@),
            i <= deltas@.len(),
            groups_of(groups@, ks.take(i as int)),
        decreases deltas@.len() - i,
    {
        let action = deltas[i].action;
        let cid = deltas[i].object.changeset();
        let oid = deltas[i].object.id();
        let ghost pre = ks.take(i as int);
        let ghost post = ks.take(i + 1);
        assert(post.drop_last() =~= pre);
        assert(post.last() == (action, cid, oid));
        assert forall|c: u64| c != cid implies #[trigger] added_ids(post, c) == added_ids(pre, c)
            && removed_ids(post, c) == removed_ids(pre, c) && (touches(post, c) == touches(pre, c)) by {
            if touches(post, c) {
                let j = choose|j: int| 0 <= j < post.len() && (#[trigger] post[j]).1 == c;
                assert(pre[j] == post[j]);
            }
            if touches(pre, c) {
                let j = choose|j: int| 0 <= j < pre.len() && (#[trigger] pre[j]).1 == c;
                assert(pre[j] == post[j]);
            }
        }
        assert(touches(post, cid)) by {
            assert(post[i as int].1 == cid);
        }
        // the position of the group of `cid`, or where it goes
        let mut pos: usize = 0;
        while pos < groups.len() && groups[pos].id < cid
            invariant
                pos <= groups@.len(),
                forall|j: int| 0 <= j < pos ==> (#[trigger] groups@[j]).id < cid,
            decreases groups@.len() - pos,
        {
            pos = pos + 1;
        }
        let ghost old_groups = groups@;
        let mut g = if pos < groups.len() && groups[pos].id == cid {
            groups.remove(pos)
        } else {
            proof {
                assert(!touches(pre, cid)) by {
                    if touches(pre, cid) {
                        let j = choose|j: int| 0 <= j < old_groups.len() && (#[trigger] old_groups[j]).id == cid;
                        if j < pos {
                        } else if j > pos {
                            assert(old_groups[pos as int].id < old_groups[j].id);
                        }
                    }
                }
                lemma_untouched(pre, cid);
            }
            ChangesetGroup { id: cid, added: Vec::new(), removed: Vec::new() }
        };
        assert(g.added@ == added_ids(pre, cid));
        assert(g.removed@ == removed_ids(pre, cid));
        match action {
            Action::Delete => {
                remove_all(&mut g.added, oid);
                g.removed.push(oid);
            },
            _ => {
                if !contains_id(&g.removed, oid) {
                    g.added.push(oid);
                }
            },
        }
        assert(g.added@ == added_ids(post, cid));
        assert(g.removed@ == removed_ids(post, cid));
        let ghost base = groups@;
        groups.insert(pos, g);
        proof {
            let gs = groups@;
            assert(gs == base.insert(pos as int, g));
            if pos < old_groups.len() && old_groups[pos as int].id == cid {
                assert(base == old_groups.remove(pos as int));
                assert(gs =~= old_groups.update(pos as int, g));
            } else {
                assert(base == old_groups);
            }
            assert forall|a: int, b: int| #![trigger gs[a], gs[b]] 0 <= a < b < gs.len() implies gs[a].id
                < gs[b].id by {
                if pos < old_groups.len() && old_groups[pos as int].id == cid {
                    assert(old_groups[a].id <= gs[a].id || a == pos);
                    if a != pos && b != pos {
                        assert(gs[a] == old_groups[a]);
                        assert(gs[b] == old_groups[b]);
                    } else if a == pos {
                        assert(gs[b] == old_groups[b]);
                        assert(old_groups[a].id < old_groups[b].id);
                    } else {
                        assert(gs[a] == old_groups[a]);
                        assert(old_groups[a].id < old_groups[b].id);
                    }
                } else {
                    if b < pos {
                        assert(gs[a] == old_groups[a]);
                        assert(gs[b] == old_groups[b]);
                    } else if b == pos {
                        assert(gs[a] == old_groups[a]);
                    } else if a == pos {
                        assert(gs[b] == old_groups[b - 1]);
                        if pos < old_groups.len() {
                            assert(old_groups[pos as int].id >= cid);
                            if b - 1 > pos {
                                assert(old_groups[pos as int].id < old_groups[b - 1].id);
                            }
                        }
                    } else if a < pos {
                        assert(gs[a] == old_groups[a]);
                        assert(gs[b] == old_groups[b - 1]);
                        if b - 1 > a {
                            assert(old_groups[a].id < old_groups[b - 1].id);
                        }
                    } else {
                        assert(gs[a] == old_groups[a - 1]);
                        assert(gs[b] == old_groups[b - 1]);
                        assert(old_groups[a - 1].id < old_groups[b - 1].id);
                    }
                }
            }
            assert forall|a: int| #![trigger gs[a]] 0 <= a < gs.len() implies {
                &&& touches(post, gs[a].id)
                &&& gs[a].added@ == added_ids(post, gs[a].id)
                &&& gs[a].removed@ == removed_ids(post, gs[a].id)
            } by {
                if a != pos {
                    let oa = if pos < old_groups.len() && old_groups[pos as int].id == cid {
                        a
                    } else if a < pos {
                        a
                    } else {
                        a - 1
                    };
                    assert(gs[a] == old_groups[oa]);
                    if old_groups[oa].id == cid {
                        if oa < pos {
                        } else if oa > pos {
                            assert(old_groups[pos as int].id < old_groups[oa].id || old_groups[pos as int].id >= cid);
                        }
                    }
                    assert(old_groups[oa].id != cid);
                    assert(added_ids(post, gs[a].id) == added_ids(pre, gs[a].id));
                }
            }
            assert forall|c: u64| touches(post, c) implies exists|a: int|
                0 <= a < gs.len() && (#[trigger] gs[a]).id == c by {
                if c == cid {
                    assert(gs[pos as int].id == cid);
                } else {
                    assert(touches(pre, c));
                    let j = choose|j: int| 0 <= j < old_groups.len() && (#[trigger] old_groups[j]).id == c;
                    if pos < old_groups.len() && old_groups[pos as int].id == cid {
                        assert(gs[j] == old_groups[j]);
                    } else if j < pos {
                        assert(gs[j] == old_groups[j]);
                    } else {
                        assert(gs[j + 1] == old_groups[j]);
                    }
                }
            }
        }
        i = i + 1;
    }
    assert(ks.take(deltas@.len() as int) =~= ks);
    groups
}

/// What the object store does for one delta.
pub enum FileOp {
    /// Writes the object of delta `delta` to the file of `id`, replacing
    /// any file there: a create, or a modify, which replaces every field
    /// that the file holds.
    Write { id: u64, delta: usize },
    /// Removes the file of `id`, where there is one.
    Remove { id: u64 },
}

pub open spec fn op_for(d: Delta, i: int) -> FileOp {
    match d.action {
        Action::Delete => FileOp::Remove { id: object_id(d.object) },
        _ => FileOp::Write { id: object_id(d.object), delta: i as usize },
    }
}

/// The operations of a change file, one per delta, in input order.
pub open spec fn ops_of(ds: Seq<Delta>) -> Seq<FileOp> {
    Seq::new(ds.len(), |i: int| op_for(ds[i], i))
}

/// The ids that have a file after `ops`, starting from `files`.
pub open spec fn store_after(files: Set<u64>, ops: Seq<FileOp>) -> Set<u64>
    decreases ops.len(),
{
    if ops.len() == 0 {
        files
    } else {
        let before = store_after(files, ops.drop_last());
        match ops.last() {
            FileOp::Write { id, .. } => before.insert(id),
            FileOp::Remove { id } => before.remove(id),
        }
    }
}

/// The object store operations for the deltas of a change file, applied in
/// input order.
pub fn file_operations(deltas: &Vec<Delta>) -> (r: Vec<FileOp>)
    ensures
        r@ == ops_of(deltas@),
{
    let mut ops: Vec<FileOp> = Vec::new();
    let mut i: usize = 0;
    while i < deltas.len()
        invariant
            i <= deltas@.len(),
            ops@ =~= ops_of(deltas@.take(i as int)),
        decreases deltas@.len() - i,
    {
        let id = deltas[i].object.id();
        let op = match deltas[i].action {
            Action::Delete => FileOp::Remove { id },
            _ => FileOp::Write { id, delta: i },
        };
        ops.push(op);
        assert(ops@ =~= ops_of(deltas@.take(i + 1)));
        i = i + 1;
    }
    assert(deltas@.take(deltas@.len() as int) =~= deltas@);
    ops
}

proof fn lemma_store_prefix(ds: Seq<Delta>)
    requires
        ds.len() > 0,
    ensures
        ops_of(ds).drop_last() == ops_of(ds.drop_last()),
        ops_of(ds).last() == op_for(ds.last(), ds.len() - 1),
{
    assert(ops_of(ds).drop_last() =~= ops_of(ds.drop_last()));
}

/// An object that a create or modify writes, and that no later delete of the
/// same change file removes, has its file at the end of the file's pass,
/// whatever files there were before.
pub proof fn lemma_written_objects_exist(files: Set<u64>, deltas: Seq<Delta>, i: int)
    requires
        0 <= i < deltas.len(),
        deltas[i].action != Action::Delete,
        forall|j: int|
            i < j < deltas.len() ==> !((#[trigger] deltas[j]).action == Action::Delete && object_id(
                deltas[j].object,
            ) == object_id(deltas[i].object)),
    ensures
        store_after(files, ops_of(deltas)).contains(object_id(deltas[i].object)),
    decreases deltas.len(),
{
    lemma_store_prefix(deltas);
    let p = deltas.drop_last();
    if i < deltas.len() - 1 {
        assert(p[i] == deltas[i]);
        assert forall|j: int| i < j < p.len() implies !((#[trigger] p[j]).action == Action::Delete
            && object_id(p[j].object) == object_id(p[i].object)) by {
            assert(p[j] == deltas[j]);
        }
        lemma_written_objects_exist(files, p, i);
        assert(deltas[deltas.len() - 1] == deltas.last());
    }
}

/// An object whose last delta in a change file is a delete has no file at
/// the end of the file's pass, whatever files there were before.
pub proof fn lemma_deleted_objects_absent(files: Set<u64>, deltas: Seq<Delta>, i: int)
    requires
        0 <= i < deltas.len(),
        deltas[i].action == Action::Delete,
        forall|j: int|
            i < j < deltas.len() ==> object_id((#[trigger] deltas[j]).object) != object_id(
                deltas[i].object,
            ),
    ensures
        !store_after(files, ops_of(deltas)).contains(object_id(deltas[i].object)),
    decreases deltas.len(),
{
    lemma_store_prefix(deltas);
    let p = deltas.drop_last();
    if i < deltas.len() - 1 {
        assert(p[i] == deltas[i]);
        assert forall|j: int| i < j < p.len() implies object_id((#[trigger] p[j]).object) != object_id(
            p[i].object,
        ) by {
            assert(p[j] == deltas[j]);
        }
        lemma_deleted_objects_absent(files, p, i);
        assert(deltas[deltas.len() - 1] == deltas.last());
    }
}

pub open spec fn group_ids(groups: Seq<ChangesetGroup>) -> Seq<u64> {
    groups.map_values(|g: ChangesetGroup| g.id)
}

/// The ids of the changesets of the groups, in order: the ids to look up.
pub fn changeset_ids(groups: &Vec<ChangesetGroup>) -> (r: Vec<u64>)
    ensures
        r@ == group_ids(groups@),
{
    let mut out: Vec<u64> = Vec::new();
    let mut i: usize = 0;
    while i < groups.len()
        invariant
            i <= groups@.len(),
            out@ =~= group_ids(groups@.take(i as int)),
        decreases groups@.len() - i,
    {
        out.push(groups[i].id);
        assert(out@ =~= group_ids(groups@.take(i + 1)));
        i = i + 1;
    }
    assert(groups@.take(groups@.len() as int) =~= groups@);
    out
}

} // verus!
