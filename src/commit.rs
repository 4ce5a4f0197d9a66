//! The content of the commit and of the note for one changeset: message,
//! author, paths and note body.
use vstd::prelude::*;
use crate::changesets::{find_changesets_in_cache, has_id, Changeset};
use crate::replay::{group_ids, groups_of, touches, ChangesetGroup};
use crate::objects::Action;
use crate::tags::{pair_view, tag_value};
use crate::text::{replace_all, replaced, trim, trimmed};

verus! {

pub open spec fn digit_char(d: int) -> char {
    "0123456789"@[d]
}

/// The decimal digits of `n`, without leading zeros.
pub open spec fn decimal(n: nat) -> Seq<char>
    decreases n,
{
    if n < 10 {
        seq![digit_char(n as int)]
    } else {
        decimal(n / 10).push(digit_char((n % 10) as int))
    }
}

/// The name of the file that holds the object `id`: `<id>.yaml`.
pub open spec fn file_name_of(id: u64) -> Seq<char> {
    decimal(id as nat) + ".yaml"@
}

fn digit_text(d: u64) -> (r: &'static str)
    requires
        d < 10,
    ensures
        r@ == seq![digit_char(d as int)],
{
    let digits: &'static str = "0123456789";
    proof {
        reveal_strlit("0123456789");
    }
    let r = digits.substring_char(d as usize, d as usize + 1);
    assert(r@ =~= seq![digit_char(d as int)]);
    r
}

/// `n` in decimal, as `u64::to_string` writes it.
pub fn decimal_text(n: u64) -> (r: String)
    ensures
        r@ == decimal(n as nat),
    decreases n,
{
    if n < 10 {
        String::from_str(digit_text(n))
    } else {
        let mut s = decimal_text(n / 10);
        s.append(digit_text(n % 10));
        s
    }
}

/// The file name of the object `id`.
pub fn object_file_name(id: u64) -> (r: String)
    ensures
        r@ == file_name_of(id),
{
    let mut s = decimal_text(id);
    s.append(".yaml");
    s
}

/// The file names of the objects `ids`, in order.
pub fn file_names(ids: &Vec<u64>) -> (r: Vec<String>)
    ensures
        r@.len() == ids@.len(),
        forall|i: int| 0 <= i < ids@.len() ==> (#[trigger] r@[i])@ == file_name_of(ids@[i]),
{
    let mut out: Vec<String> = Vec::new();
    let mut i: usize = 0;
    while i < ids.len()
        invariant
            i <= ids@.len(),
            out@.len() == i,
            forall|j: int| 0 <= j < i ==> (#[trigger] out@[j])@ == file_name_of(ids@[j]),
        decreases ids@.len() - i,
    {
        out.push(object_file_name(ids[i]));
        i = i + 1;
    }
    out
}

/// The Unix time of an ISO 8601 date and time, where the text is one.
pub uninterp spec fn iso8601_seconds(s: Seq<char>) -> Option<i64>;

/// Relies on time's `OffsetDateTime::parse` with `Iso8601::DEFAULT`, then
/// `OffsetDateTime::unix_timestamp`: the result depends on the text alone.
#[verifier::external_body]
fn parse_iso8601(s: &str) -> (r: Option<i64>)
    ensures
        r == iso8601_seconds(s@),
{
    match time::OffsetDateTime::parse(s, &time::format_description::well_known::Iso8601::DEFAULT) {
        Ok(t) => Some(t.unix_timestamp()),
        Err(_) => None,
    }
}

/// The moment that dates a changeset: when it was closed, else when it was
/// created.
pub open spec fn moment_of(c: Changeset) -> Seq<char> {
    match c.closed_at {
        Some(t) => t@,
        None => c.created_at@,
    }
}

/// The commit message of a changeset: its `comment` tag without leading and
/// trailing white space, empty where there is none.
pub open spec fn message_of(tags: Seq<(Seq<char>, Seq<char>)>) -> Seq<char> {
    match tag_value(tags, "comment"@) {
        Some(c) => trimmed(c),
        None => Seq::empty(),
    }
}

/// The note lines of the tags, in key order: `\n<key>: <value>` for each tag
/// whose key is not blank.
pub open spec fn note_lines(tags: Seq<(Seq<char>, Seq<char>)>) -> Seq<char>
    decreases tags.len(),
{
    if tags.len() == 0 {
        Seq::empty()
    } else {
        let prev = note_lines(tags.drop_last());
        let t = tags.last();
        if trimmed(t.0).len() == 0 {
            prev
        } else {
            prev + "\n"@ + t.0 + ": "@ + t.1
        }
    }
}

/// The body of the note of a changeset.
pub open spec fn note_of(id: u64, tags: Seq<(Seq<char>, Seq<char>)>) -> Seq<char> {
    "Legacy Changeset ID: "@ + decimal(id as nat) + note_lines(tags)
}

/// What the commit of one changeset holds, and the note attached to it.
pub struct CommitPlan {
    pub changeset_id: u64,
    pub message: String,
    pub author_name: String,
    pub author_email: String,
    /// Seconds since the Unix epoch, UTC.
    pub author_time: i64,
    pub added_paths: Vec<String>,
    pub removed_paths: Vec<String>,
    pub note: String,
}

/// `p` is the commit of `changeset` for `group`, dated `time`.
#[verifier::opaque]
pub open spec fn plan_of(p: CommitPlan, group: ChangesetGroup, changeset: Changeset, time: i64) -> bool {
    &&& p.changeset_id == changeset.id
    &&& p.message@ == message_of(changeset.tags@)
    &&& p.author_name@ == changeset.user@
    &&& p.author_email@ == changeset.user@ + "@osm"@
    &&& p.author_time == time
    &&& p.added_paths@.len() == group.added@.len()
    &&& forall|i: int|
        0 <= i < group.added@.len() ==> (#[trigger] p.added_paths@[i])@ == file_name_of(
            group.added@[i],
        )
    &&& p.removed_paths@.len() == group.removed@.len()
    &&& forall|i: int|
        0 <= i < group.removed@.len() ==> (#[trigger] p.removed_paths@[i])@ == file_name_of(
            group.removed@[i],
        )
    &&& p.note@ == note_of(changeset.id, changeset.tags@)
}

/// The commit time of a changeset, given what reading its moment gave: the
/// epoch where that moment could not be read.
pub open spec fn time_or_epoch(t: Option<i64>) -> i64 {
    match t {
        Some(s) => s,
        None => 0,
    }
}

/// The body of the note of a changeset: `Legacy Changeset ID: <id>`, then
/// one line per tag with a key that is not blank, in key order.
pub fn note_text(changeset: &Changeset) -> (r: String)
    ensures
        r@ == note_of(changeset.id, changeset.tags@),
{
    let mut out = String::from_str("Legacy Changeset ID: ");
    let digits = decimal_text(changeset.id);
    out.append(digits.as_str());
    let entries = changeset.tags.entries();
    let ghost tags = changeset.tags@;
    let mut i: usize = 0;
    assert(tags.take(0) =~= Seq::<(Seq<char>, Seq<char>)>::empty());
    while i < entries.len()
        invariant
            entries@.map_values(|p: (String, String)| pair_view(p)) == tags,
            i <= entries@.len(),
            out@ == "Legacy Changeset ID: "@ + decimal(changeset.id as nat) + note_lines(
                tags.take(i as int),
            ),
        decreases entries@.len() - i,
    {
        let ghost before = out@;
        assert(tags.take(i + 1).drop_last() =~= tags.take(i as int));
        assert(tags.take(i + 1).last() == pair_view(entries@[i as int]));
        let key = &entries[i].0;
        let value = &entries[i].1;
        let bare = trim(key.as_str());
        if bare.unicode_len() != 0 {
            out.append("\n");
            out.append(key.as_str());
            out.append(": ");
            out.append(value.as_str());
            assert(out@ =~= before + "\n"@ + key@ + ": "@ + value@);
        }
        i = i + 1;
    }
    assert(tags.take(entries@.len() as int) =~= tags);
    out
}

/// The commit message of a changeset.
pub fn commit_message(changeset: &Changeset) -> (r: String)
    ensures
        r@ == message_of(changeset.tags@),
{
    match changeset.tags.get("comment") {
        Some(c) => trim(c.as_str()),
        None => String::new(),
    }
}

/// The commit of `changeset` for `group`, dated `time` where its moment
/// could be read, and at the epoch where not.
pub fn plan_commit_at(group: &ChangesetGroup, changeset: &Changeset, time: Option<i64>) -> (r: CommitPlan)
    ensures
        plan_of(r, *group, *changeset, time_or_epoch(time)),
{
    proof {
        reveal(plan_of);
    }
    let mut email = changeset.user.clone();
    email.append("@osm");
    CommitPlan {
        changeset_id: changeset.id,
        message: commit_message(changeset),
        author_name: changeset.user.clone(),
        author_email: email,
        author_time: match time {
            Some(t) => t,
            None => 0,
        },
        added_paths: file_names(&group.added),
        removed_paths: file_names(&group.removed),
        note: note_text(changeset),
    }
}

/// The commit of `changeset` for `group`: authored by the changeset's user
/// as `<user>@osm`, at the moment it was closed (or else created).
pub fn plan_commit(group: &ChangesetGroup, changeset: &Changeset) -> (r: CommitPlan)
    ensures
        plan_of(r, *group, *changeset, time_or_epoch(iso8601_seconds(moment_of(*changeset)))),
{
    let time = match &changeset.closed_at {
        Some(t) => parse_iso8601(t.as_str()),
        None => parse_iso8601(changeset.created_at.as_str()),
    };
    plan_commit_at(group, changeset, time)
}

/// The ids of `ids` whose changeset is among `found`, in order.
pub open spec fn resolved(ids: Seq<u64>, found: Seq<Changeset>) -> Seq<u64> {
    ids.filter(|id: u64| has_id(found, id))
}

pub open spec fn plan_ids(plans: Seq<CommitPlan>) -> Seq<u64> {
    plans.map_values(|p: CommitPlan| p.changeset_id)
}

/// `p` is the commit of one of `groups` with one of `changesets`, dated as
/// reading that changeset's moment gives.
pub open spec fn made_from(p: CommitPlan, groups: Seq<ChangesetGroup>, changesets: Seq<Changeset>) -> bool {
    exists|i: int, j: int|
        0 <= i < groups.len() && 0 <= j < changesets.len() && #[trigger] plan_of(
            p,
            groups[i],
            changesets[j],
            time_or_epoch(iso8601_seconds(moment_of(changesets[j]))),
        )
}

/// The commits of a change file: one for each group whose changeset is
/// among `changesets`, in the order of the groups, made with the first
/// changeset of that id. Groups whose changeset is missing get no commit.
pub fn plan_commits(groups: &Vec<ChangesetGroup>, changesets: &Vec<Changeset>) -> (r: Vec<CommitPlan>)
    ensures
        plan_ids(r@) == resolved(group_ids(groups@), changesets@),
        forall|k: int| 0 <= k < r@.len() ==> made_from(#[trigger] r@[k], groups@, changesets@),
{
    let mut out: Vec<CommitPlan> = Vec::new();
    let ghost ids = group_ids(groups@);
    let mut i: usize = 0;
    assert(ids.take(0) =~= Seq::<u64>::empty());
    assert(plan_ids(out@) =~= Seq::<u64>::empty());
    proof {
        reveal(Seq::filter);
    }
    while i < groups.len()
        invariant
            ids == group_ids(groups@),
            i <= groups@.len(),
            plan_ids(out@) == resolved(ids.take(i as int), changesets@),
            forall|k: int| 0 <= k < out@.len() ==> made_from(#[trigger] out@[k], groups@, changesets@),
        decreases groups@.len() - i,
    {
        assert(ids.take(i + 1).drop_last() =~= ids.take(i as int));
        assert(ids.take(i + 1).last() == groups@[i as int].id);
        let ghost before = out@;
        match find_changesets_in_cache(changesets, groups[i].id) {
            Some(c) => {
                let p = plan_commit(&groups[i], c);
                out.push(p);
                proof {
                    let j = choose|j: int|
                        0 <= j < changesets@.len() && changesets@[j] == *c && c.id == groups@[i as int].id
                            && forall|m: int| 0 <= m < j ==> (#[trigger] changesets@[m]).id != groups@[i as int].id;
                    assert(plan_of(p, groups@[i as int], changesets@[j], time_or_epoch(iso8601_seconds(moment_of(changesets@[j])))));
                    assert(made_from(p, groups@, changesets@));
                    assert(p.changeset_id == groups@[i as int].id) by {
                        reveal(plan_of);
                    }
                    assert(has_id(changesets@, groups@[i as int].id));
                    assert(plan_ids(out@) =~= plan_ids(before).push(p.changeset_id));
                    reveal(Seq::filter);
                    assert forall|k: int| 0 <= k < out@.len() implies made_from(#[trigger] out@[k], groups@, changesets@) by {
                        if k < before.len() {
                            assert(out@[k] == before[k]);
                        }
                    }
                }
            },
            None => {
                assert(!has_id(changesets@, groups@[i as int].id));
                reveal(Seq::filter);
            },
        }
        i = i + 1;
    }
    assert(ids.take(groups@.len() as int) =~= ids);
    out
}

/// The README of a new repository: `template` with `$server_url` replaced by
/// the server's URL and then `$version` by the program's version.
pub fn readme_text(template: &str, server_url: &str, version: &str) -> (r: String)
    ensures
        r@ == replaced(replaced(template@, "$server_url"@, server_url@), "$version"@, version@),
{
    proof {
        reveal_strlit("$server_url");
        reveal_strlit("$version");
    }
    let first = replace_all(template, "$server_url", server_url);
    replace_all(first.as_str(), "$version", version)
}

/// The changesets of a change file (given by its delta keys) whose metadata
/// is among `found`.
pub open spec fn resolved_changesets(ks: Seq<(Action, u64, u64)>, found: Seq<Changeset>) -> Set<u64> {
    Set::new(|c: u64| touches(ks, c) && has_id(found, c))
}

pub open spec fn increasing(s: Seq<u64>) -> bool {
    forall|i: int, j: int| 0 <= i < j < s.len() ==> s[i] < s[j]
}

proof fn lemma_resolved_increasing(ids: Seq<u64>, found: Seq<Changeset>)
    requires
        increasing(ids),
    ensures
        increasing(resolved(ids, found)),
        forall|x: u64| #[trigger] resolved(ids, found).contains(x) <==> ids.contains(x) && has_id(found, x),
    decreases ids.len(),
{
    reveal(Seq::filter);
    if ids.len() > 0 {
        let p = ids.drop_last();
        assert(increasing(p)) by {
            assert forall|i: int, j: int| 0 <= i < j < p.len() implies p[i] < p[j] by {
                assert(p[i] == ids[i] && p[j] == ids[j]);
            }
        }
        lemma_resolved_increasing(p, found);
        let rp = resolved(p, found);
        let last = ids.last();
        assert forall|x: u64| rp.contains(x) implies x < last by {
            let k = choose|k: int| 0 <= k < p.len() && p[k] == x;
            assert(ids[k] == x);
            assert(ids[ids.len() - 1] == last);
        }
        assert forall|x: u64| #[trigger] resolved(ids, found).contains(x) <==> ids.contains(x) && has_id(found, x) by {
            if ids.contains(x) && x != last {
                let k = choose|k: int| 0 <= k < ids.len() && ids[k] == x;
                assert(k != ids.len() - 1);
                assert(p[k] == x);
            }
            if p.contains(x) {
                let k = choose|k: int| 0 <= k < p.len() && p[k] == x;
                assert(ids[k] == x);
            }
            if has_id(found, last) {
                assert(resolved(ids, found) == rp.push(last));
                if resolved(ids, found).contains(x) {
                    let k = choose|k: int| 0 <= k < resolved(ids, found).len() && resolved(ids, found)[k] == x;
                    if k < rp.len() {
                        assert(rp[k] == x);
                    }
                }
                if rp.contains(x) {
                    let k = choose|k: int| 0 <= k < rp.len() && rp[k] == x;
                    assert(resolved(ids, found)[k] == x);
                }
                assert(resolved(ids, found)[rp.len() as int] == last);
            }
            assert(ids[ids.len() - 1] == last);
        }
        if has_id(found, last) {
            let r = resolved(ids, found);
            assert(r == rp.push(last));
            assert forall|i: int, j: int| 0 <= i < j < r.len() implies r[i] < r[j] by {
                if j == r.len() - 1 {
                    assert(rp.contains(r[i]));
                } else {
                    assert(r[i] == rp[i] && r[j] == rp[j]);
                }
            }
        }
    }
}

/// A change file gets exactly one commit for each changeset that it touches
/// and whose metadata is found: the commits that `plan_commits` makes for the
/// groups of its deltas are as many as those changesets.
pub proof fn lemma_one_commit_per_resolved_changeset(
    groups: Seq<ChangesetGroup>,
    ks: Seq<(Action, u64, u64)>,
    found: Seq<Changeset>,
)
    requires
        groups_of(groups, ks),
    ensures
        resolved_changesets(ks, found).finite(),
        resolved(group_ids(groups), found).len() == resolved_changesets(ks, found).len(),
{
    let ids = group_ids(groups);
    assert(increasing(ids)) by {
        assert forall|i: int, j: int| 0 <= i < j < ids.len() implies ids[i] < ids[j] by {
            assert(groups[i].id < groups[j].id);
        }
    }
    lemma_resolved_increasing(ids, found);
    let r = resolved(ids, found);
    assert(r.no_duplicates()) by {
        assert forall|i: int, j: int| 0 <= i < r.len() && 0 <= j < r.len() && i != j implies r[i] != r[j] by {
            if i < j {
                assert(r[i] < r[j]);
            } else {
                assert(r[j] < r[i]);
            }
        }
    }
    r.unique_seq_to_set();
    assert forall|c: u64| r.to_set().contains(c) <==> #[trigger] resolved_changesets(ks, found).contains(c) by {
        if ids.contains(c) {
            let k = choose|k: int| 0 <= k < ids.len() && ids[k] == c;
            assert(groups[k].id == c);
        }
        if touches(ks, c) {
            let k = choose|k: int| 0 <= k < groups.len() && (#[trigger] groups[k]).id == c;
            assert(ids[k] == c);
        }
    }
    assert(r.to_set() =~= resolved_changesets(ks, found));
}

/// The number of commits after replaying change files, each given by the
/// groups of its deltas and the changesets found for them: the seed commit
/// of the README, then the commits of each file.
pub open spec fn commits_after(files: Seq<(Seq<ChangesetGroup>, Seq<Changeset>)>) -> nat
    decreases files.len(),
{
    if files.len() == 0 {
        1
    } else {
        commits_after(files.drop_last()) + resolved(group_ids(files.last().0), files.last().1).len()
    }
}

/// One plus, for each change file, the number of its changesets whose
/// metadata is found: the number of distinct pairs of a file and a resolved
/// changeset id.
pub open spec fn seed_and_resolved(keys: Seq<Seq<(Action, u64, u64)>>, files: Seq<(Seq<ChangesetGroup>, Seq<Changeset>)>) -> nat
    decreases keys.len(),
{
    if keys.len() == 0 || files.len() == 0 {
        1
    } else {
        seed_and_resolved(keys.drop_last(), files.drop_last()) + resolved_changesets(keys.last(), files.last().1).len()
    }
}

/// After replaying any sequence of change files, the commits on the branch
/// are the README's plus one for each pair of a file and a changeset of that
/// file whose metadata was found.
pub proof fn lemma_commit_count(keys: Seq<Seq<(Action, u64, u64)>>, files: Seq<(Seq<ChangesetGroup>, Seq<Changeset>)>)
    requires
        keys.len() == files.len(),
        forall|f: int| 0 <= f < files.len() ==> groups_of((#[trigger] files[f]).0, keys[f]),
    ensures
        commits_after(files) == seed_and_resolved(keys, files),
    decreases files.len(),
{
    if files.len() > 0 {
        let n = files.len() - 1;
        assert forall|f: int| 0 <= f < files.drop_last().len() implies groups_of(
            (#[trigger] files.drop_last()[f]).0,
            keys.drop_last()[f],
        ) by {
            assert(files.drop_last()[f] == files[f]);
        }
        lemma_commit_count(keys.drop_last(), files.drop_last());
        assert(groups_of(files[n].0, keys[n]));
        lemma_one_commit_per_resolved_changeset(files.last().0, keys.last(), files.last().1);
    }
}

/// Every commit made from changeset `c` is authored by `c.user` as
/// `<user>@osm`, at the moment that `c` was closed, or else created (the
/// epoch where that moment cannot be read), and carries the note of `c`.
pub proof fn lemma_commit_author(p: CommitPlan, group: ChangesetGroup, c: Changeset)
    requires
        plan_of(p, group, c, time_or_epoch(iso8601_seconds(moment_of(c)))),
    ensures
        p.author_name@ == c.user@,
        p.author_email@ == c.user@ + "@osm"@,
        p.author_time == time_or_epoch(iso8601_seconds(moment_of(c))),
        p.changeset_id == c.id,
        p.note@ == note_of(c.id, c.tags@),
{
    reveal(plan_of);
}

} // verus!
