//! Changesets: the metadata of an editing session, read from the `<osm>`
//! dialect of the changeset archives, and their lookup by id.
use vstd::prelude::*;
use crate::objects::{attr_or_empty, child_tag, opt_view, required_u64, ObjectError};
use crate::tags::{tag_value, Tags};
use crate::text::{
    bool_of_text, check_decimal, is_decimal, parse_bool, parse_u64, str_eq, strip_prefixes,
    strip_suffixes, trim_end_matches, trim_start_matches, u64_of_text,
};
use crate::xml::{
    attr_value, attribute_value, attrs_view, event_view, Attr, Ev, XmlElement, XmlError, XmlEvent, XmlSource,
};
use crate::events::{
    added, element_rest, extends, lemma_extends_push, lemma_extends_refl, lemma_extends_trans,
    lemma_rest_push, starts, Child,
};

verus! {

/// An editing session. Bounding box coordinates are kept as the decimal
/// text of the archive.
pub struct Changeset {
    pub id: u64,
    pub created_at: String,
    pub closed_at: Option<String>,
    pub open: bool,
    pub user: String,
    pub uid: u64,
    pub min_lat: Option<String>,
    pub max_lat: Option<String>,
    pub min_lon: Option<String>,
    pub max_lon: Option<String>,
    pub tags: Tags,
}

/// An optional numeric attribute: `default` where absent.
pub open spec fn optional_u64(attrs: Seq<Attr>, key: Seq<char>, default: u64) -> Result<u64, ObjectError> {
    match attr_value(attrs, key) {
        None => Ok(default),
        Some(t) => match u64_of_text(t) {
            Some(v) => Ok(v),
            None => Err(ObjectError::Invalid),
        },
    }
}

/// An optional coordinate attribute.
pub open spec fn optional_decimal(attrs: Seq<Attr>, key: Seq<char>) -> Result<Option<Seq<char>>, ObjectError> {
    match attr_value(attrs, key) {
        None => Ok(None),
        Some(t) => if is_decimal(t) {
            Ok(Some(t))
        } else {
            Err(ObjectError::Invalid)
        },
    }
}

/// The `open` attribute: mandatory, `true` or `false`.
pub open spec fn required_bool(attrs: Seq<Attr>, key: Seq<char>) -> Result<bool, ObjectError> {
    match attr_value(attrs, key) {
        None => Err(ObjectError::Missing),
        Some(t) => match bool_of_text(t) {
            Some(b) => Ok(b),
            None => Err(ObjectError::Invalid),
        },
    }
}

/// The first problem among a changeset's attributes, checked in the order
/// id, created_at, open, uid, min_lat, max_lat, min_lon, max_lon.
pub open spec fn changeset_error(attrs: Seq<Attr>) -> Option<ObjectError> {
    if required_u64(attrs, "id"@) is Err {
        Some(required_u64(attrs, "id"@)->Err_0)
    } else if attr_value(attrs, "created_at"@) is None {
        Some(ObjectError::Missing)
    } else if required_bool(attrs, "open"@) is Err {
        Some(required_bool(attrs, "open"@)->Err_0)
    } else if optional_u64(attrs, "uid"@, 0) is Err {
        Some(ObjectError::Invalid)
    } else if optional_decimal(attrs, "min_lat"@) is Err {
        Some(ObjectError::Invalid)
    } else if optional_decimal(attrs, "max_lat"@) is Err {
        Some(ObjectError::Invalid)
    } else if optional_decimal(attrs, "min_lon"@) is Err {
        Some(ObjectError::Invalid)
    } else if optional_decimal(attrs, "max_lon"@) is Err {
        Some(ObjectError::Invalid)
    } else {
        None
    }
}

/// The user name of a changeset: `Unknown` where the attribute is absent.
pub open spec fn user_of(attrs: Seq<Attr>) -> Seq<char> {
    match attr_value(attrs, "user"@) {
        Some(u) => u,
        None => "Unknown"@,
    }
}

/// The fields of `c` that the attributes of its element give: all but its
/// tags.
pub open spec fn changeset_fields(c: Changeset, attrs: Seq<Attr>) -> bool {
    &&& c.id == required_u64(attrs, "id"@)->Ok_0
    &&& Some(c.created_at@) == attr_value(attrs, "created_at"@)
    &&& opt_view(c.closed_at) == attr_value(attrs, "closed_at"@)
    &&& c.open == required_bool(attrs, "open"@)->Ok_0
    &&& c.user@ == user_of(attrs)
    &&& c.uid == optional_u64(attrs, "uid"@, 0)->Ok_0
    &&& opt_view(c.min_lat) == optional_decimal(attrs, "min_lat"@)->Ok_0
    &&& opt_view(c.max_lat) == optional_decimal(attrs, "max_lat"@)->Ok_0
    &&& opt_view(c.min_lon) == optional_decimal(attrs, "min_lon"@)->Ok_0
    &&& opt_view(c.max_lon) == optional_decimal(attrs, "max_lon"@)->Ok_0
}

/// The fields of `c` are those that the attributes give, with no tags yet.
pub open spec fn changeset_from_header(c: Changeset, attrs: Seq<Attr>) -> bool {
    &&& changeset_fields(c, attrs)
    &&& c.tags@.len() == 0
}

fn read_optional_u64(attrs: &Vec<Attr>, key: &str, default: u64) -> (r: Result<u64, ObjectError>)
    ensures
        r == optional_u64(attrs@, key@, default),
{
    match attribute_value(attrs, key) {
        None => Ok(default),
        Some(t) => match parse_u64(t.as_str()) {
            Some(v) => Ok(v),
            None => Err(ObjectError::Invalid),
        },
    }
}

fn read_optional_decimal(attrs: &Vec<Attr>, key: &str) -> (r: Result<Option<String>, ObjectError>)
    ensures
        r matches Ok(v) ==> optional_decimal(attrs@, key@) == Ok::<Option<Seq<char>>, ObjectError>(
            opt_view(v),
        ),
        r matches Err(e) ==> optional_decimal(attrs@, key@) == Err::<Option<Seq<char>>, ObjectError>(e),
{
    match attribute_value(attrs, key) {
        None => Ok(None),
        Some(t) => if check_decimal(t.as_str()) {
            Ok(Some(t))
        } else {
            Err(ObjectError::Invalid)
        },
    }
}

/// The changeset that the attributes of a `<changeset>` element describe,
/// with no tags yet: `user` defaults to `Unknown` and `uid` to 0; `id`,
/// `created_at` and `open` are mandatory.
pub fn changeset_from_attributes(attrs: &Vec<Attr>) -> (r: Result<Changeset, ObjectError>)
    ensures
        r matches Ok(c) ==> changeset_error(attrs@) is None && changeset_from_header(c, attrs@),
        r matches Err(e) ==> changeset_error(attrs@) == Some(e),
{
    let id = match attribute_value(attrs, "id") {
        None => {
            return Err(ObjectError::Missing);
        },
        Some(t) => match parse_u64(t.as_str()) {
            Some(v) => v,
            None => {
                return Err(ObjectError::Invalid);
            },
        },
    };
    let created_at = match attribute_value(attrs, "created_at") {
        None => {
            return Err(ObjectError::Missing);
        },
        Some(t) => t,
    };
    let open = match attribute_value(attrs, "open") {
        None => {
            return Err(ObjectError::Missing);
        },
        Some(t) => match parse_bool(t.as_str()) {
            Some(b) => b,
            None => {
                return Err(ObjectError::Invalid);
            },
        },
    };
    let uid = match read_optional_u64(attrs, "uid", 0) {
        Ok(v) => v,
        Err(e) => {
            return Err(e);
        },
    };
    let min_lat = match read_optional_decimal(attrs, "min_lat") {
        Ok(v) => v,
        Err(e) => {
            return Err(e);
        },
    };
    let max_lat = match read_optional_decimal(attrs, "max_lat") {
        Ok(v) => v,
        Err(e) => {
            return Err(e);
        },
    };
    let min_lon = match read_optional_decimal(attrs, "min_lon") {
        Ok(v) => v,
        Err(e) => {
            return Err(e);
        },
    };
    let max_lon = match read_optional_decimal(attrs, "max_lon") {
        Ok(v) => v,
        Err(e) => {
            return Err(e);
        },
    };
    let user = match attribute_value(attrs, "user") {
        Some(u) => u,
        None => "Unknown".to_string(),
    };
    Ok(
        Changeset {
            id,
            created_at,
            closed_at: attribute_value(attrs, "closed_at"),
            open,
            user,
            uid,
            min_lat,
            max_lat,
            min_lon,
            max_lon,
            tags: Tags::new(),
        },
    )
}

/// Applies a child of a `<changeset>` element: a `tag` stores `v` under
/// `k` (each empty where absent); any other child is ignored.
pub fn add_changeset_child(changeset: &mut Changeset, name: &str, attrs: &Vec<Attr>)
    ensures
        final(changeset).id == old(changeset).id,
        final(changeset).created_at == old(changeset).created_at,
        final(changeset).closed_at == old(changeset).closed_at,
        final(changeset).open == old(changeset).open,
        final(changeset).user == old(changeset).user,
        final(changeset).uid == old(changeset).uid,
        final(changeset).min_lat == old(changeset).min_lat,
        final(changeset).max_lat == old(changeset).max_lat,
        final(changeset).min_lon == old(changeset).min_lon,
        final(changeset).max_lon == old(changeset).max_lon,
        name@ == "tag"@ ==> forall|k: Seq<char>|
            #[trigger] tag_value(final(changeset).tags@, k) == if k == attr_or_empty(attrs@, "k"@) {
                Some(attr_or_empty(attrs@, "v"@))
            } else {
                tag_value(old(changeset).tags@, k)
            },
        name@ != "tag"@ ==> final(changeset).tags@ == old(changeset).tags@,
{
    if str_eq(name, "tag") {
        let k = match attribute_value(attrs, "k") {
            Some(v) => v,
            None => String::new(),
        };
        let v = match attribute_value(attrs, "v") {
            Some(v) => v,
            None => String::new(),
        };
        changeset.tags.insert(k, v);
    }
}

/// Whether `id` is among `ids`.
pub fn contains_id(ids: &Vec<u64>, id: u64) -> (r: bool)
    ensures
        r == ids@.contains(id),
{
    let mut i: usize = 0;
    while i < ids.len()
        invariant
            i <= ids@.len(),
            forall|j: int| 0 <= j < i ==> ids@[j] != id,
        decreases ids@.len() - i,
    {
        if ids[i] == id {
            return true;
        }
        i = i + 1;
    }
    false
}

/// A changeset element with these attributes is passed over: its id reads,
/// and is not among the wanted ones.
pub open spec fn unwanted(a: Seq<Attr>, wanted: Option<Seq<u64>>) -> bool {
    &&& wanted is Some
    &&& required_u64(a, "id"@) is Ok
    &&& !wanted->Some_0.contains(required_u64(a, "id"@)->Ok_0)
}

/// The first error of a changeset read from its attributes and children:
/// that of its attributes, else malformed attributes of a child.
pub open spec fn changeset_outcome(attrs: Result<Seq<Attr>, XmlError>, children: Seq<Child>) -> Option<ObjectError>
    decreases children.len(),
{
    if children.len() == 0 {
        match attrs {
            Err(_) => Some(ObjectError::Malformed),
            Ok(a) => changeset_error(a),
        }
    } else {
        let prev = changeset_outcome(attrs, children.drop_last());
        if prev is Some {
            prev
        } else if children.last().1 is Err {
            Some(ObjectError::Malformed)
        } else {
            None
        }
    }
}

/// A changeset element read in full, without error.
pub struct ChangesetRead {
    pub attrs: Seq<Attr>,
    pub children: Seq<Child>,
}

/// `c` is the changeset read `m`: its fields from the attributes, its tags
/// from the `tag` children, the last one winning.
pub open spec fn changeset_read(c: Changeset, m: ChangesetRead) -> bool {
    &&& changeset_fields(c, m.attrs)
    &&& forall|k: Seq<char>| #[trigger] tag_value(c.tags@, k) == child_tag(m.children, k)
}

pub open spec fn changesets_read(cs: Seq<Changeset>, ms: Seq<ChangesetRead>) -> bool {
    cs.len() == ms.len() && forall|i: int| 0 <= i < cs.len() ==> changeset_read(#[trigger] cs[i], ms[i])
}

/// Where the reading of a changeset archive stands.
pub enum ArchiveMode {
    Top,
    Changeset(Result<Seq<Attr>, XmlError>, Seq<Child>),
    Done,
}

/// One event of a changeset archive: the mode after it, and the changeset
/// read in full with it, if any. A `changeset` start opens a changeset
/// unless it is unwanted (then the element is passed over whole); its end
/// yields it where it has no error.
pub open spec fn archive_step(wanted: Option<Seq<u64>>, m: ArchiveMode, e: Ev) -> (ArchiveMode, Seq<ChangesetRead>) {
    match m {
        ArchiveMode::Top => match e {
            Ev::Start(n, at) => if n == "changeset"@ && !(at is Ok && unwanted(at->Ok_0, wanted)) {
                (ArchiveMode::Changeset(at, Seq::empty()), Seq::empty())
            } else {
                (ArchiveMode::Top, Seq::empty())
            },
            Ev::Eof => (ArchiveMode::Done, Seq::empty()),
            _ => (ArchiveMode::Top, Seq::empty()),
        },
        ArchiveMode::Changeset(at, ch) => match e {
            Ev::Start(n, ca) => (ArchiveMode::Changeset(at, ch.push((n, ca))), Seq::empty()),
            Ev::End(_) => (
                ArchiveMode::Top,
                if changeset_outcome(at, ch) is None {
                    seq![ChangesetRead { attrs: at->Ok_0, children: ch }]
                } else {
                    Seq::empty()
                },
            ),
            Ev::Eof => (ArchiveMode::Done, Seq::empty()),
            _ => (ArchiveMode::Changeset(at, ch), Seq::empty()),
        },
        ArchiveMode::Done => (ArchiveMode::Done, Seq::empty()),
    }
}

/// The events `evs` of an archive read from mode `m`: the mode after them,
/// and the changesets read in full, in order.
pub open spec fn archive_run(wanted: Option<Seq<u64>>, m: ArchiveMode, evs: Seq<Ev>) -> (ArchiveMode, Seq<ChangesetRead>)
    decreases evs.len(),
{
    if evs.len() == 0 {
        (m, Seq::empty())
    } else {
        let (m1, out1) = archive_run(wanted, m, evs.drop_last());
        let (m2, out2) = archive_step(wanted, m1, evs.last());
        (m2, out1 + out2)
    }
}

proof fn lemma_archive_run_push(wanted: Option<Seq<u64>>, m: ArchiveMode, evs: Seq<Ev>, e: Ev)
    ensures
        archive_run(wanted, m, evs.push(e)) == (archive_step(wanted, archive_run(wanted, m, evs).0, e).0,
            archive_run(wanted, m, evs).1 + archive_step(wanted, archive_run(wanted, m, evs).0, e).1),
{
    assert(evs.push(e).drop_last() =~= evs);
}

proof fn lemma_archive_run_append(wanted: Option<Seq<u64>>, m: ArchiveMode, a: Seq<Ev>, b: Seq<Ev>)
    ensures
        archive_run(wanted, m, a + b) == (archive_run(wanted, archive_run(wanted, m, a).0, b).0,
            archive_run(wanted, m, a).1 + archive_run(wanted, archive_run(wanted, m, a).0, b).1),
    decreases b.len(),
{
    if b.len() == 0 {
        assert(a + b =~= a);
        assert(archive_run(wanted, m, a).1 + Seq::<ChangesetRead>::empty() =~= archive_run(wanted, m, a).1);
    } else {
        lemma_archive_run_append(wanted, m, a, b.drop_last());
        assert((a + b).drop_last() =~= a + b.drop_last());
        assert((a + b).last() == b.last());
        let x = archive_run(wanted, m, a).1;
        let y = archive_run(wanted, archive_run(wanted, m, a).0, b.drop_last()).1;
        let z = archive_step(wanted, archive_run(wanted, archive_run(wanted, m, a).0, b.drop_last()).0, b.last()).1;
        assert((x + y) + z =~= x + (y + z));
    }
}

proof fn lemma_changeset_inside(wanted: Option<Seq<u64>>, at: Result<Seq<Attr>, XmlError>, evs: Seq<Ev>)
    requires
        forall|i: int| 0 <= i < evs.len() ==> !(#[trigger] evs[i] is End) && !(evs[i] is Eof),
    ensures
        archive_run(wanted, ArchiveMode::Changeset(at, Seq::empty()), evs) == (ArchiveMode::Changeset(at, starts(evs)), Seq::<ChangesetRead>::empty()),
    decreases evs.len(),
{
    if evs.len() > 0 {
        let p = evs.drop_last();
        assert forall|i: int| 0 <= i < p.len() implies !(#[trigger] p[i] is End) && !(p[i] is Eof) by {
            assert(p[i] == evs[i]);
        }
        lemma_changeset_inside(wanted, at, p);
        assert(evs[evs.len() - 1] == evs.last());
        assert(Seq::<ChangesetRead>::empty() + Seq::<ChangesetRead>::empty() =~= Seq::<ChangesetRead>::empty());
    }
}

/// The rest of a changeset element takes the reading back to the top, with
/// the changeset read in full where it has no error.
proof fn lemma_changeset_rest(wanted: Option<Seq<u64>>, at: Result<Seq<Attr>, XmlError>, evs: Seq<Ev>)
    requires
        element_rest(evs),
    ensures
        archive_run(wanted, ArchiveMode::Changeset(at, Seq::empty()), evs) == (ArchiveMode::Top, if changeset_outcome(at, starts(evs)) is None {
            seq![ChangesetRead { attrs: at->Ok_0, children: starts(evs) }]
        } else {
            Seq::<ChangesetRead>::empty()
        }),
{
    let p = evs.drop_last();
    assert forall|i: int| 0 <= i < p.len() implies !(#[trigger] p[i] is End) && !(p[i] is Eof) by {
        assert(p[i] == evs[i]);
    }
    lemma_changeset_inside(wanted, at, p);
    assert(evs =~= p.push(evs.last()));
    lemma_rest_push(p, evs.last());
    lemma_archive_run_push(wanted, ArchiveMode::Changeset(at, Seq::empty()), p, evs.last());
    assert(Seq::<ChangesetRead>::empty() + seq![ChangesetRead { attrs: at->Ok_0, children: starts(p) }] =~= seq![ChangesetRead { attrs: at->Ok_0, children: starts(p) }]);
    assert(Seq::<ChangesetRead>::empty() + Seq::<ChangesetRead>::empty() =~= Seq::<ChangesetRead>::empty());
}

pub open spec fn wanted_view(wanted: Option<Vec<u64>>) -> Option<Seq<u64>> {
    match wanted {
        Some(w) => Some(w@),
        None => None,
    }
}

/// Reads the changeset whose start, `element`, was the last event of `src`.
/// One whose id is not wanted is passed over whole and yields `None`. Any
/// other is read up to its end: the changeset that its attributes describe,
/// with the tags of its `tag` children applied in order through
/// `add_changeset_child`, or the object error of its first bad attribute or
/// child.
pub fn new_from_element<R: std::io::BufRead>(
    src: &mut XmlSource<R>,
    element: &XmlElement,
    wanted: &Option<Vec<u64>>,
) -> (r: Result<Result<Option<Changeset>, ObjectError>, XmlError>)
    ensures
        final(src).fuel() <= old(src).fuel(),
        extends(final(src).events(), old(src).events()),
        r matches Ok(res) ==> {
            let evs = added(final(src).events(), old(src).events());
            let at = attrs_view(element.attrs);
            if at is Ok && unwanted(at->Ok_0, wanted_view(*wanted)) {
                evs == seq![Ev::Skipped(element.name@)] && res == Ok::<Option<Changeset>, ObjectError>(None)
            } else {
                let outcome = changeset_outcome(at, starts(evs));
                &&& element_rest(evs)
                &&& res is Err <==> outcome is Some
                &&& res matches Err(e) ==> outcome == Some(e)
                &&& res matches Ok(c) ==> c matches Some(c) && changeset_read(
                    c,
                    ChangesetRead { attrs: at->Ok_0, children: starts(evs) },
                ) && (wanted matches Some(w) ==> w@.contains(c.id))
            }
        },
{
    proof {
        reveal_strlit("tag");
        assert("tag"@.len() == 3);
    }
    let ghost before = src.events();
    proof {
        lemma_extends_refl(before);
    }
    if let (Ok(attrs), Some(w)) = (&element.attrs, wanted) {
        let id = match attribute_value(attrs, "id") {
            Some(t) => parse_u64(t.as_str()),
            None => None,
        };
        if let Some(id) = id {
            if !contains_id(w, id) {
                let skipped = src.skip(element);
                proof {
                    if skipped is Ok {
                        lemma_extends_push(before, before, Ev::Skipped(element.name@));
                        assert(added(before, before).push(Ev::Skipped(element.name@)) =~= seq![Ev::Skipped(element.name@)]);
                    }
                }
                return match skipped {
                    Ok(()) => Ok(Ok(None)),
                    Err(e) => Err(e),
                };
            }
        }
    }
    let mut result = match &element.attrs {
        Ok(attrs) => changeset_from_attributes(attrs),
        Err(_) => Err(ObjectError::Malformed),
    };
    proof {
        if result is Ok {
            let c = result->Ok_0;
            assert forall|k: Seq<char>| #[trigger] tag_value(c.tags@, k) == child_tag(Seq::empty(), k) by {
            }
        }
    }
    loop
        invariant
            src.fuel() <= old(src).fuel(),
            before == old(src).events(),
            extends(src.events(), before),
            !(attrs_view(element.attrs) is Ok && unwanted(attrs_view(element.attrs)->Ok_0, wanted_view(*wanted))),
            forall|i: int|
                0 <= i < added(src.events(), before).len() ==> !(#[trigger] added(src.events(), before)[i] is End)
                    && !(added(src.events(), before)[i] is Eof),
            result is Err <==> changeset_outcome(attrs_view(element.attrs), starts(added(src.events(), before))) is Some,
            result matches Err(e) ==> changeset_outcome(attrs_view(element.attrs), starts(added(src.events(), before))) == Some(e),
            result matches Ok(c) ==> element.attrs is Ok && changeset_read(
                c,
                ChangesetRead { attrs: attrs_view(element.attrs)->Ok_0, children: starts(added(src.events(), before)) },
            ) && (wanted matches Some(w) ==> w@.contains(c.id)),
        decreases src.fuel(),
    {
        let ghost seg = added(src.events(), before);
        let ghost ch = starts(seg);
        let ghost evs0 = src.events();
        let ev = src.next();
        if let Ok(e) = &ev {
            proof {
                lemma_extends_push(before, evs0, event_view(*e));
            }
        }
        match ev {
            Err(e) => {
                return Err(e);
            },
            Ok(XmlEvent::Eof) => {
                return Err(XmlError::Syntax);
            },
            Ok(XmlEvent::End(name)) => {
                proof {
                    lemma_rest_push(seg, Ev::End(name@));
                }
                if str_eq(name.as_str(), element.name.as_str()) {
                    return Ok(
                        match result {
                            Ok(c) => Ok(Some(c)),
                            Err(e) => Err(e),
                        },
                    );
                }
                return Err(XmlError::Syntax);
            },
            Ok(XmlEvent::Other) => {
                proof {
                    lemma_rest_push(seg, Ev::Other);
                }
            },
            Ok(XmlEvent::Start(child)) => {
                let ghost c: Child = (child.name@, attrs_view(child.attrs));
                proof {
                    lemma_rest_push(seg, Ev::Start(c.0, c.1));
                    assert(ch.push(c).drop_last() =~= ch);
                }
                let ghost result0 = result;
                match &child.attrs {
                    Err(_) => {
                        if result.is_ok() {
                            result = Err(ObjectError::Malformed);
                        }
                    },
                    Ok(child_attrs) => {
                        if let Ok(cs) = &mut result {
                            add_changeset_child(cs, child.name.as_str(), child_attrs);
                        }
                    },
                }
                proof {
                    let ch1 = ch.push(c);
                    assert(ch1.last() == c);
                    if result is Ok {
                        let c0 = result0->Ok_0;
                        let c1 = result->Ok_0;
                        assert forall|k: Seq<char>| #[trigger] tag_value(c1.tags@, k) == child_tag(ch1, k) by {
                            assert(tag_value(c0.tags@, k) == child_tag(ch, k));
                        }
                    }
                }
                let ghost evs1 = src.events();
                let ghost seg1 = added(evs1, before);
                if let Err(e) = src.skip(&child) {
                    return Err(e);
                }
                proof {
                    lemma_extends_push(before, evs1, Ev::Skipped(child.name@));
                    lemma_rest_push(seg1, Ev::Skipped(child.name@));
                }
            },
        }
    }
}

/// Some changeset of `found` has this id.
pub open spec fn has_id(found: Seq<Changeset>, id: u64) -> bool {
    exists|j: int| 0 <= j < found.len() && (#[trigger] found[j]).id == id
}

/// Every id of `wanted` is the id of a changeset of `found`.
pub open spec fn covers(found: Seq<Changeset>, wanted: Seq<u64>) -> bool {
    forall|i: int| 0 <= i < wanted.len() ==> has_id(found, #[trigger] wanted[i])
}

fn all_found(found: &Vec<Changeset>, wanted: &Vec<u64>) -> (r: bool)
    ensures
        r == covers(found@, wanted@),
{
    let mut i: usize = 0;
    while i < wanted.len()
        invariant
            i <= wanted@.len(),
            forall|k: int| 0 <= k < i ==> has_id(found@, #[trigger] wanted@[k]),
        decreases wanted@.len() - i,
    {
        let mut j: usize = 0;
        let mut hit = false;
        while j < found.len()
            invariant
                j <= found@.len(),
                i < wanted@.len(),
                hit ==> has_id(found@, wanted@[i as int]),
                !hit ==> forall|m: int| 0 <= m < j ==> (#[trigger] found@[m]).id != wanted@[i as int],
            decreases found@.len() - j,
        {
            if found[j].id == wanted[i] {
                hit = true;
            }
            j = j + 1;
        }
        if !hit {
            assert(!has_id(found@, wanted@[i as int]));
            return false;
        }
        i = i + 1;
    }
    true
}

/// Reads the changesets of an `<osm>` archive in document order, as the
/// events read give them. With `wanted`, only those whose id is wanted are
/// kept, and reading stops as soon as every wanted id has been found (an
/// empty `wanted` reads nothing); otherwise reading goes to the end of the
/// document. A changeset that cannot be read is left out.
pub fn parse_changeset<R: std::io::BufRead>(
    src: &mut XmlSource<R>,
    wanted: &Option<Vec<u64>>,
) -> (r: Result<Vec<Changeset>, XmlError>)
    ensures
        extends(final(src).events(), old(src).events()),
        r matches Ok(found) ==> {
            let run = archive_run(wanted_view(*wanted), ArchiveMode::Top, added(final(src).events(), old(src).events()));
            &&& changesets_read(found@, run.1)
            &&& run.0 == ArchiveMode::Done || (run.0 == ArchiveMode::Top && wanted is Some && covers(
                found@,
                wanted->Some_0@,
            ))
        },
        wanted matches Some(w) ==> (w@.len() == 0 ==> (r matches Ok(found) && found@.len() == 0)),
        r matches Ok(found) ==> wanted matches Some(w) ==> {
            &&& forall|i: int| 0 <= i < found@.len() ==> w@.contains(#[trigger] found@[i].id)
            &&& forall|k: int| 0 <= k < found@.len() ==> !covers(#[trigger] found@.take(k), w@)
        },
{
    let ghost before = src.events();
    let ghost wv = wanted_view(*wanted);
    proof {
        lemma_extends_refl(before);
    }
    let mut changesets: Vec<Changeset> = Vec::new();
    loop
        invariant
            before == old(src).events(),
            wv == wanted_view(*wanted),
            extends(src.events(), before),
            archive_run(wv, ArchiveMode::Top, added(src.events(), before)).0 == ArchiveMode::Top,
            changesets_read(changesets@, archive_run(wv, ArchiveMode::Top, added(src.events(), before)).1),
            wanted matches Some(w) ==> {
                &&& forall|i: int| 0 <= i < changesets@.len() ==> w@.contains(#[trigger] changesets@[i].id)
                &&& forall|k: int| 0 <= k < changesets@.len() ==> !covers(#[trigger] changesets@.take(k), w@)
            },
            wanted matches Some(w) ==> (w@.len() == 0 ==> changesets@.len() == 0),
        decreases src.fuel(),
    {
        if let Some(w) = wanted {
            if all_found(&changesets, w) {
                return Ok(changesets);
            }
        }
        assert(wanted matches Some(w) ==> !covers(changesets@, w@));
        let ghost evs0 = src.events();
        let ghost seg = added(evs0, before);
        let ghost m = archive_run(wv, ArchiveMode::Top, seg).1;
        let ev = src.next();
        if let Ok(e) = &ev {
            proof {
                lemma_extends_push(before, evs0, event_view(*e));
                lemma_archive_run_push(wv, ArchiveMode::Top, seg, event_view(*e));
                assert(m + Seq::<ChangesetRead>::empty() =~= m);
            }
        }
        match ev {
            Err(e) => {
                return Err(e);
            },
            Ok(XmlEvent::Eof) => {
                return Ok(changesets);
            },
            Ok(XmlEvent::Start(element)) => {
                if str_eq(element.name.as_str(), "changeset") {
                    let ghost evs1 = src.events();
                    let ghost at = attrs_view(element.attrs);
                    let res = new_from_element(src, &element, wanted);
                    proof {
                        lemma_extends_trans(before, evs1, src.events());
                    }
                    match res {
                        Err(e) => {
                            return Err(e);
                        },
                        Ok(res) => {
                            proof {
                                let rest = added(src.events(), evs1);
                                let seg1 = added(evs1, before);
                                lemma_archive_run_append(wv, ArchiveMode::Top, seg1, rest);
                                if at is Ok && unwanted(at->Ok_0, wv) {
                                    lemma_archive_run_push(wv, ArchiveMode::Top, Seq::empty(), Ev::Skipped(element.name@));
                                    assert(seq![Ev::Skipped(element.name@)] =~= Seq::<Ev>::empty().push(Ev::Skipped(element.name@)));
                                    assert(archive_run(wv, ArchiveMode::Top, Seq::<Ev>::empty()) == (ArchiveMode::Top, Seq::<ChangesetRead>::empty()));
                                    assert(Seq::<ChangesetRead>::empty() + Seq::<ChangesetRead>::empty() =~= Seq::<ChangesetRead>::empty());
                                    assert(m + Seq::<ChangesetRead>::empty() =~= m);
                                } else {
                                    lemma_changeset_rest(wv, at, rest);
                                    assert(m + Seq::<ChangesetRead>::empty() =~= m);
                                }
                            }
                            match res {
                                Ok(Some(c)) => {
                                    let ghost before_cs = changesets@;
                                    changesets.push(c);
                                    proof {
                                        let rest = added(src.events(), evs1);
                                        let item = ChangesetRead { attrs: at->Ok_0, children: starts(rest) };
                                        assert(m + seq![item] =~= m.push(item));
                                        assert(changesets@.take(before_cs.len() as int) =~= before_cs);
                                        assert forall|k: int| 0 <= k < changesets@.len() implies (wanted is Some
                                            ==> !covers(#[trigger] changesets@.take(k), wanted->Some_0@)) by {
                                            if wanted is Some && k < before_cs.len() {
                                                assert(changesets@.take(k) =~= before_cs.take(k));
                                            }
                                            if wanted is Some && k == before_cs.len() {
                                                assert(changesets@.take(k) =~= before_cs);
                                            }
                                        }
                                        assert forall|i: int| 0 <= i < changesets@.len() implies changeset_read(#[trigger] changesets@[i], (m.push(item))[i]) by {
                                            if i < before_cs.len() {
                                                assert(changesets@[i] == before_cs[i]);
                                            }
                                        }
                                    }
                                },
                                _ => {},
                            }
                        },
                    }
                } else {
                    proof {
                        reveal_strlit("changeset");
                    }
                }
            },
            Ok(_) => {},
        }
    }
}

/// The first changeset of `changesets` with this id.
pub fn find_changesets_in_cache(changesets: &Vec<Changeset>, changeset_id: u64) -> (r: Option<&Changeset>)
    ensures
        r matches Some(c) ==> exists|i: int|
            0 <= i < changesets@.len() && changesets@[i] == *c && c.id == changeset_id && forall|j: int|
                0 <= j < i ==> (#[trigger] changesets@[j]).id != changeset_id,
        r is None ==> forall|i: int| 0 <= i < changesets@.len() ==> (#[trigger] changesets@[i]).id != changeset_id,
{
    let mut i: usize = 0;
    while i < changesets.len()
        invariant
            i <= changesets@.len(),
            forall|j: int| 0 <= j < i ==> (#[trigger] changesets@[j]).id != changeset_id,
        decreases changesets@.len() - i,
    {
        if changesets[i].id == changeset_id {
            return Some(&changesets[i]);
        }
        i = i + 1;
    }
    None
}

/// The number `N` of an archive named `changesets-<N>.osm.zst`.
pub open spec fn archive_number(name: Seq<char>) -> Option<u64> {
    u64_of_text(strip_prefixes(strip_suffixes(name, ".osm.zst"@), "changesets-"@))
}

pub fn archive_number_of(name: &str) -> (r: Option<u64>)
    ensures
        r == archive_number(name@),
{
    let base = trim_end_matches(name, ".osm.zst");
    let digits = trim_start_matches(base.as_str(), "changesets-");
    parse_u64(digits.as_str())
}

/// Picks the changeset archive to read among the file names of a directory:
/// the first of those with the greatest number `N` in
/// `changesets-<N>.osm.zst`, where that number is above 0.
pub fn newest_changeset_archive(names: &Vec<String>) -> (r: Option<usize>)
    ensures
        r matches Some(i) ==> {
            &&& i < names@.len()
            &&& archive_number(names@[i as int]@) matches Some(v) && v > 0 && (forall|j: int|
                0 <= j < i ==> (archive_number((#[trigger] names@[j])@) matches Some(w) ==> w < v))
                && (forall|j: int|
                i < j < names@.len() ==> (archive_number((#[trigger] names@[j])@) matches Some(w)
                    ==> w <= v))
        },
        r is None ==> forall|j: int|
            0 <= j < names@.len() ==> (archive_number((#[trigger] names@[j])@) matches Some(w) ==> w
                == 0),
{
    let mut best: u64 = 0;
    let mut chosen: Option<usize> = None;
    let mut i: usize = 0;
    while i < names.len()
        invariant
            i <= names@.len(),
            forall|j: int|
                0 <= j < i ==> (archive_number((#[trigger] names@[j])@) matches Some(w) ==> w <= best),
            chosen is None ==> best == 0,
            chosen matches Some(c) ==> {
                &&& c < i
                &&& archive_number(names@[c as int]@) == Some(best)
                &&& best > 0
                &&& forall|j: int|
                    0 <= j < c ==> (archive_number((#[trigger] names@[j])@) matches Some(w) ==> w < best)
            },
        decreases names@.len() - i,
    {
        if let Some(v) = archive_number_of(names[i].as_str()) {
            if v > best {
                best = v;
                chosen = Some(i);
            }
        }
        i = i + 1;
    }
    chosen
}

/// A `<changeset>` element that carries every documented attribute, each
/// well-formed, gives a changeset whose fields are exactly those attributes,
/// numbers and booleans read from their text.
pub proof fn lemma_full_changeset(
    attrs: Seq<Attr>,
    c: Changeset,
    id: Seq<char>,
    created_at: Seq<char>,
    closed_at: Seq<char>,
    open: Seq<char>,
    user: Seq<char>,
    uid: Seq<char>,
    min_lat: Seq<char>,
    max_lat: Seq<char>,
    min_lon: Seq<char>,
    max_lon: Seq<char>,
)
    requires
        attr_value(attrs, "id"@) == Some(id),
        attr_value(attrs, "created_at"@) == Some(created_at),
        attr_value(attrs, "closed_at"@) == Some(closed_at),
        attr_value(attrs, "open"@) == Some(open),
        attr_value(attrs, "user"@) == Some(user),
        attr_value(attrs, "uid"@) == Some(uid),
        attr_value(attrs, "min_lat"@) == Some(min_lat),
        attr_value(attrs, "max_lat"@) == Some(max_lat),
        attr_value(attrs, "min_lon"@) == Some(min_lon),
        attr_value(attrs, "max_lon"@) == Some(max_lon),
        u64_of_text(id) is Some,
        bool_of_text(open) is Some,
        u64_of_text(uid) is Some,
        is_decimal(min_lat),
        is_decimal(max_lat),
        is_decimal(min_lon),
        is_decimal(max_lon),
        changeset_from_header(c, attrs),
    ensures
        changeset_error(attrs) is None,
        c.id == u64_of_text(id)->Some_0,
        c.created_at@ == created_at,
        opt_view(c.closed_at) == Some(closed_at),
        c.open == bool_of_text(open)->Some_0,
        c.user@ == user,
        c.uid == u64_of_text(uid)->Some_0,
        opt_view(c.min_lat) == Some(min_lat),
        opt_view(c.max_lat) == Some(max_lat),
        opt_view(c.min_lon) == Some(min_lon),
        opt_view(c.max_lon) == Some(max_lon),
{
}

} // verus!
