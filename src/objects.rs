//! OSM objects (nodes, ways, relations) and the reading of them from the
//! attributes and child elements of an osmChange document.
use vstd::prelude::*;
use crate::tags::{tag_value, Tags};
use crate::text::{check_decimal, is_decimal, parse_u64, str_eq, u64_of_text};
use crate::xml::{attr_value, attribute_value, attrs_view, event_view, Attr, Ev, XmlElement, XmlError, XmlEvent, XmlSource};
use crate::events::{
    added, element_rest, extends, lemma_extends_push, lemma_extends_refl, lemma_extends_trans,
    lemma_rest_push, starts, Child,
};

verus! {

/// The version of the object file layout, written into every object.
pub const FILE_VERSION: &'static str = "0.1.0";

/// Why one object of a change file could not be read.
#[derive(Debug, Clone, Copy, PartialEq, Eq, Structural)]
pub enum ObjectError {
    /// A mandatory attribute is absent.
    Missing,
    /// An attribute does not hold a number of the expected form.
    Invalid,
    /// The attributes of the element or of one of its children are not
    /// well-formed XML.
    Malformed,
}

/// A point. Its coordinates are kept as the decimal text of the document.
pub struct Node {
    /// The id of the node; it names the object's file.
    pub id: u64,
    pub changeset: u64,
    pub file_generator: Option<String>,
    pub file_version: String,
    pub legacy_object_version: Option<String>,
    pub lat: String,
    pub lon: String,
    pub tags: Tags,
}

/// A polyline over node ids, in order, repeats allowed.
pub struct Way {
    pub id: u64,
    pub changeset: u64,
    pub file_generator: Option<String>,
    pub file_version: String,
    pub legacy_object_version: Option<String>,
    pub tags: Tags,
    pub nodes: Vec<u64>,
}

/// A member of a relation: the kind of the object referred to, its id, and
/// its role, absent when the document gives an empty one.
#[derive(Debug, Clone)]
pub struct RelationMember {
    pub member_type: String,
    pub ref_id: u64,
    pub role: Option<String>,
}

/// A typed collection of members, in order.
pub struct Relation {
    pub id: u64,
    pub changeset: u64,
    pub file_generator: Option<String>,
    pub file_version: String,
    pub legacy_object_version: Option<String>,
    pub tags: Tags,
    pub member: Vec<RelationMember>,
}

pub enum OSMObject {
    Node(Node),
    Way(Way),
    Relation(Relation),
}

/// The three kinds of OSM objects, by element name.
#[derive(Debug, Clone, Copy, PartialEq, Eq, Structural)]
pub enum ObjectKind {
    Node,
    Way,
    Relation,
}

/// What a change file does to an object: given by the grouping element.
#[derive(Debug, Clone, Copy, PartialEq, Eq, Structural)]
pub enum Action {
    Create,
    Modify,
    Delete,
}

/// One object revision of a change file, with what is done to it.
pub struct Delta {
    pub action: Action,
    pub object: OSMObject,
}

pub open spec fn object_id(o: OSMObject) -> u64 {
    match o {
        OSMObject::Node(n) => n.id,
        OSMObject::Way(w) => w.id,
        OSMObject::Relation(r) => r.id,
    }
}

pub open spec fn object_changeset(o: OSMObject) -> u64 {
    match o {
        OSMObject::Node(n) => n.changeset,
        OSMObject::Way(w) => w.changeset,
        OSMObject::Relation(r) => r.changeset,
    }
}

pub open spec fn object_kind(o: OSMObject) -> ObjectKind {
    match o {
        OSMObject::Node(_) => ObjectKind::Node,
        OSMObject::Way(_) => ObjectKind::Way,
        OSMObject::Relation(_) => ObjectKind::Relation,
    }
}

pub open spec fn object_tags(o: OSMObject) -> Seq<(Seq<char>, Seq<char>)> {
    match o {
        OSMObject::Node(n) => n.tags@,
        OSMObject::Way(w) => w.tags@,
        OSMObject::Relation(r) => r.tags@,
    }
}

pub open spec fn object_file_version(o: OSMObject) -> Seq<char> {
    match o {
        OSMObject::Node(n) => n.file_version@,
        OSMObject::Way(w) => w.file_version@,
        OSMObject::Relation(r) => r.file_version@,
    }
}

pub open spec fn opt_view(o: Option<String>) -> Option<Seq<char>> {
    match o {
        Some(s) => Some(s@),
        None => None,
    }
}

pub open spec fn object_generator(o: OSMObject) -> Option<Seq<char>> {
    match o {
        OSMObject::Node(n) => opt_view(n.file_generator),
        OSMObject::Way(w) => opt_view(w.file_generator),
        OSMObject::Relation(r) => opt_view(r.file_generator),
    }
}

pub open spec fn object_version(o: OSMObject) -> Option<Seq<char>> {
    match o {
        OSMObject::Node(n) => opt_view(n.legacy_object_version),
        OSMObject::Way(w) => opt_view(w.legacy_object_version),
        OSMObject::Relation(r) => opt_view(r.legacy_object_version),
    }
}

impl OSMObject {
    pub fn id(&self) -> (r: u64)
        ensures
            r == object_id(*self),
    {
        match self {
            OSMObject::Node(n) => n.id,
            OSMObject::Way(w) => w.id,
            OSMObject::Relation(r) => r.id,
        }
    }

    pub fn changeset(&self) -> (r: u64)
        ensures
            r == object_changeset(*self),
    {
        match self {
            OSMObject::Node(n) => n.changeset,
            OSMObject::Way(w) => w.changeset,
            OSMObject::Relation(r) => r.changeset,
        }
    }
}

/// A mandatory numeric attribute.
pub open spec fn required_u64(attrs: Seq<Attr>, key: Seq<char>) -> Result<u64, ObjectError> {
    match attr_value(attrs, key) {
        None => Err(ObjectError::Missing),
        Some(t) => match u64_of_text(t) {
            Some(v) => Ok(v),
            None => Err(ObjectError::Invalid),
        },
    }
}

/// A mandatory coordinate attribute.
pub open spec fn required_decimal(attrs: Seq<Attr>, key: Seq<char>) -> Result<Seq<char>, ObjectError> {
    match attr_value(attrs, key) {
        None => Err(ObjectError::Missing),
        Some(t) => if is_decimal(t) {
            Ok(t)
        } else {
            Err(ObjectError::Invalid)
        },
    }
}

/// Whether an object of `kind` under `action` must carry coordinates: a
/// node that is created or modified. A deleted node is written nowhere.
pub open spec fn needs_coordinates(kind: ObjectKind, action: Action) -> bool {
    kind == ObjectKind::Node && action != Action::Delete
}

/// The first error among the mandatory attributes of an object of `kind`
/// under `action`, checked in the order id, changeset, lat, lon.
pub open spec fn header_error(kind: ObjectKind, action: Action, attrs: Seq<Attr>) -> Option<ObjectError> {
    if required_u64(attrs, "id"@) is Err {
        Some(required_u64(attrs, "id"@)->Err_0)
    } else if required_u64(attrs, "changeset"@) is Err {
        Some(required_u64(attrs, "changeset"@)->Err_0)
    } else if needs_coordinates(kind, action) && required_decimal(attrs, "lat"@) is Err {
        Some(required_decimal(attrs, "lat"@)->Err_0)
    } else if needs_coordinates(kind, action) && required_decimal(attrs, "lon"@) is Err {
        Some(required_decimal(attrs, "lon"@)->Err_0)
    } else {
        None
    }
}

/// The fields of an object that the attributes of its element give: all
/// but its tags, nodes and members. The coordinates of a deleted node are
/// taken as they are, empty where absent.
pub open spec fn header_fields(o: OSMObject, kind: ObjectKind, action: Action, attrs: Seq<Attr>) -> bool {
    &&& object_kind(o) == kind
    &&& object_id(o) == required_u64(attrs, "id"@)->Ok_0
    &&& object_changeset(o) == required_u64(attrs, "changeset"@)->Ok_0
    &&& object_generator(o) == attr_value(attrs, "generator"@)
    &&& object_version(o) == attr_value(attrs, "version"@)
    &&& object_file_version(o) == FILE_VERSION@
    &&& match o {
        OSMObject::Node(n) => if action != Action::Delete {
            n.lat@ == required_decimal(attrs, "lat"@)->Ok_0 && n.lon@ == required_decimal(
                attrs,
                "lon"@,
            )->Ok_0
        } else {
            n.lat@ == attr_or_empty(attrs, "lat"@) && n.lon@ == attr_or_empty(attrs, "lon"@)
        },
        _ => true,
    }
}

/// What an object read from `attrs` holds before any child element.
pub open spec fn object_from_header(o: OSMObject, kind: ObjectKind, action: Action, attrs: Seq<Attr>) -> bool {
    &&& header_fields(o, kind, action, attrs)
    &&& object_tags(o).len() == 0
    &&& way_nodes(o).len() == 0
    &&& relation_members(o).len() == 0
}

fn read_u64(attrs: &Vec<Attr>, key: &str) -> (r: Result<u64, ObjectError>)
    ensures
        r == required_u64(attrs@, key@),
{
    match attribute_value(attrs, key) {
        None => Err(ObjectError::Missing),
        Some(t) => match parse_u64(t.as_str()) {
            Some(v) => Ok(v),
            None => Err(ObjectError::Invalid),
        },
    }
}

fn read_decimal(attrs: &Vec<Attr>, key: &str) -> (r: Result<String, ObjectError>)
    ensures
        r matches Ok(s) ==> required_decimal(attrs@, key@) == Ok::<Seq<char>, ObjectError>(s@),
        r matches Err(e) ==> required_decimal(attrs@, key@) == Err::<Seq<char>, ObjectError>(e),
{
    match attribute_value(attrs, key) {
        None => Err(ObjectError::Missing),
        Some(t) => if check_decimal(t.as_str()) {
            Ok(t)
        } else {
            Err(ObjectError::Invalid)
        },
    }
}

/// The object of `kind` that the attributes of its element describe, with no
/// tags or members yet; an error where a mandatory attribute is absent or
/// malformed. `id` and `changeset` are mandatory, and `lat` and `lon` for a
/// node that is created or modified.
pub fn object_from_attributes(kind: ObjectKind, action: Action, attrs: &Vec<Attr>) -> (r: Result<OSMObject, ObjectError>)
    ensures
        r matches Ok(o) ==> header_error(kind, action, attrs@) is None && object_from_header(o, kind, action, attrs@),
        r matches Err(e) ==> header_error(kind, action, attrs@) == Some(e),
{
    let id = match read_u64(attrs, "id") {
        Ok(v) => v,
        Err(e) => {
            return Err(e);
        },
    };
    let changeset = match read_u64(attrs, "changeset") {
        Ok(v) => v,
        Err(e) => {
            return Err(e);
        },
    };
    let file_generator = attribute_value(attrs, "generator");
    let legacy_object_version = attribute_value(attrs, "version");
    let tags = Tags::new();
    match kind {
        ObjectKind::Node => {
            let (lat, lon) = match action {
                Action::Delete => (text_or_empty(attrs, "lat"), text_or_empty(attrs, "lon")),
                _ => {
                    let lat = match read_decimal(attrs, "lat") {
                        Ok(v) => v,
                        Err(e) => {
                            return Err(e);
                        },
                    };
                    let lon = match read_decimal(attrs, "lon") {
                        Ok(v) => v,
                        Err(e) => {
                            return Err(e);
                        },
                    };
                    (lat, lon)
                },
            };
            Ok(
                OSMObject::Node(
                    Node {
                        id,
                        changeset,
                        file_generator,
                        file_version: FILE_VERSION.to_string(),
                        legacy_object_version,
                        lat,
                        lon,
                        tags,
                    },
                ),
            )
        },
        ObjectKind::Way => {
            Ok(
                OSMObject::Way(
                    Way {
                        id,
                        changeset,
                        file_generator,
                        file_version: FILE_VERSION.to_string(),
                        legacy_object_version,
                        tags,
                        nodes: Vec::new(),
                    },
                ),
            )
        },
        ObjectKind::Relation => {
            Ok(
                OSMObject::Relation(
                    Relation {
                        id,
                        changeset,
                        file_generator,
                        file_version: FILE_VERSION.to_string(),
                        legacy_object_version,
                        tags,
                        member: Vec::new(),
                    },
                ),
            )
        },
    }
}

/// Everything but the tags, the node list and the member list agrees.
pub open spec fn same_header(a: OSMObject, b: OSMObject) -> bool {
    &&& object_kind(a) == object_kind(b)
    &&& object_id(a) == object_id(b)
    &&& object_changeset(a) == object_changeset(b)
    &&& object_generator(a) == object_generator(b)
    &&& object_version(a) == object_version(b)
    &&& object_file_version(a) == object_file_version(b)
    &&& match (a, b) {
        (OSMObject::Node(x), OSMObject::Node(y)) => x.lat@ == y.lat@ && x.lon@ == y.lon@,
        _ => true,
    }
}

pub open spec fn way_nodes(o: OSMObject) -> Seq<u64> {
    match o {
        OSMObject::Way(w) => w.nodes@,
        _ => Seq::empty(),
    }
}

pub open spec fn relation_members(o: OSMObject) -> Seq<RelationMember> {
    match o {
        OSMObject::Relation(r) => r.member@,
        _ => Seq::empty(),
    }
}

/// The text of an optional attribute, empty where it is absent.
pub open spec fn attr_or_empty(attrs: Seq<Attr>, key: Seq<char>) -> Seq<char> {
    match attr_value(attrs, key) {
        Some(v) => v,
        None => Seq::empty(),
    }
}

/// The role of a member: absent where the attribute is absent or empty.
pub open spec fn member_role(attrs: Seq<Attr>) -> Option<Seq<char>> {
    match attr_value(attrs, "role"@) {
        Some(v) => if v.len() == 0 {
            None
        } else {
            Some(v)
        },
        None => None,
    }
}

/// The member that a `<member>` element with `attrs` describes.
pub open spec fn member_from(m: RelationMember, attrs: Seq<Attr>) -> bool {
    &&& m.member_type@ == attr_or_empty(attrs, "type"@)
    &&& m.ref_id == required_u64(attrs, "ref"@)->Ok_0
    &&& opt_view(m.role) == member_role(attrs)
}

fn text_or_empty(attrs: &Vec<Attr>, key: &str) -> (r: String)
    ensures
        r@ == attr_or_empty(attrs@, key@),
{
    match attribute_value(attrs, key) {
        Some(v) => v,
        None => String::new(),
    }
}

/// Applies the child element `name` with `attrs` to `object`: a `tag`
/// stores `v` under `k` (each empty where absent); an `nd` of a way appends
/// its `ref`; a `member` of a relation appends a member. Any other child
/// leaves the object as it is. An `nd` or `member` whose `ref` is absent or
/// not a number is an error, and leaves the object as it is.
pub fn add_child(object: &mut OSMObject, name: &str, attrs: &Vec<Attr>) -> (r: Result<(), ObjectError>)
    ensures
        name@ == "tag"@ ==> {
            &&& r is Ok
            &&& same_header(*old(object), *final(object))
            &&& way_nodes(*final(object)) == way_nodes(*old(object))
            &&& relation_members(*final(object)) == relation_members(*old(object))
            &&& forall|k: Seq<char>|
                #[trigger] tag_value(object_tags(*final(object)), k) == if k == attr_or_empty(
                    attrs@,
                    "k"@,
                ) {
                    Some(attr_or_empty(attrs@, "v"@))
                } else {
                    tag_value(object_tags(*old(object)), k)
                }
        },
        name@ == "nd"@ && (*old(object)) is Way ==> {
            match required_u64(attrs@, "ref"@) {
                Ok(v) => {
                    &&& r is Ok
                    &&& (*final(object)) is Way
                    &&& same_header(*old(object), *final(object))
                    &&& object_tags(*final(object)) == object_tags(*old(object))
                    &&& way_nodes(*final(object)) == way_nodes(*old(object)).push(v)
                },
                Err(e) => r == Err::<(), ObjectError>(e) && *final(object) == *old(object),
            }
        },
        name@ == "member"@ && (*old(object)) is Relation ==> {
            match required_u64(attrs@, "ref"@) {
                Ok(v) => {
                    let ms = relation_members(*final(object));
                    &&& r is Ok
                    &&& (*final(object)) is Relation
                    &&& same_header(*old(object), *final(object))
                    &&& object_tags(*final(object)) == object_tags(*old(object))
                    &&& ms.len() == relation_members(*old(object)).len() + 1
                    &&& ms.drop_last() == relation_members(*old(object))
                    &&& member_from(ms.last(), attrs@)
                },
                Err(e) => r == Err::<(), ObjectError>(e) && *final(object) == *old(object),
            }
        },
        !(name@ == "tag"@) && !(name@ == "nd"@ && (*old(object)) is Way) && !(name@ == "member"@
            && (*old(object)) is Relation) ==> r is Ok && *final(object) == *old(object),
{
    proof {
        reveal_strlit("tag");
        reveal_strlit("nd");
        reveal_strlit("member");
        assert("nd"@.len() == 2);
        assert("member"@.len() == 6);
        assert("nd"@ != "member"@);
    }
    if str_eq(name, "tag") {
        let k = text_or_empty(attrs, "k");
        let v = text_or_empty(attrs, "v");
        match object {
            OSMObject::Node(n) => n.tags.insert(k, v),
            OSMObject::Way(w) => w.tags.insert(k, v),
            OSMObject::Relation(rel) => rel.tags.insert(k, v),
        }
        return Ok(());
    }
    if str_eq(name, "nd") {
        match object {
            OSMObject::Way(w) => {
                let v = match read_u64(attrs, "ref") {
                    Ok(v) => v,
                    Err(e) => {
                        return Err(e);
                    },
                };
                w.nodes.push(v);
            },
            _ => {},
        }
        return Ok(());
    }
    if str_eq(name, "member") {
        match object {
            OSMObject::Relation(rel) => {
                let ref_id = match read_u64(attrs, "ref") {
                    Ok(v) => v,
                    Err(e) => {
                        return Err(e);
                    },
                };
                let member_type = text_or_empty(attrs, "type");
                let role = match attribute_value(attrs, "role") {
                    Some(v) => if v.unicode_len() == 0 {
                        None
                    } else {
                        Some(v)
                    },
                    None => None,
                };
                let m = RelationMember { member_type, ref_id, role };
                assert(member_from(m, attrs@));
                let ghost before = rel.member@;
                rel.member.push(m);
                assert(rel.member@.drop_last() =~= before);
                assert(rel.member@.last() == m);
            },
            _ => {},
        }
        return Ok(());
    }
    Ok(())
}

/// The kind of object that an element of this name holds, if any.
pub open spec fn kind_named(name: Seq<char>) -> Option<ObjectKind> {
    if name == "node"@ {
        Some(ObjectKind::Node)
    } else if name == "way"@ {
        Some(ObjectKind::Way)
    } else if name == "relation"@ {
        Some(ObjectKind::Relation)
    } else {
        None
    }
}

/// The action that a grouping element of this name stands for, if any.
pub open spec fn action_named(name: Seq<char>) -> Option<Action> {
    if name == "create"@ {
        Some(Action::Create)
    } else if name == "modify"@ {
        Some(Action::Modify)
    } else if name == "delete"@ {
        Some(Action::Delete)
    } else {
        None
    }
}

pub fn kind_of_element(name: &str) -> (r: Option<ObjectKind>)
    ensures
        r == kind_named(name@),
{
    if str_eq(name, "node") {
        Some(ObjectKind::Node)
    } else if str_eq(name, "way") {
        Some(ObjectKind::Way)
    } else if str_eq(name, "relation") {
        Some(ObjectKind::Relation)
    } else {
        None
    }
}

pub fn action_of_element(name: &str) -> (r: Option<Action>)
    ensures
        r == action_named(name@),
{
    if str_eq(name, "create") {
        Some(Action::Create)
    } else if str_eq(name, "modify") {
        Some(Action::Modify)
    } else if str_eq(name, "delete") {
        Some(Action::Delete)
    } else {
        None
    }
}

/// The error that a child makes in an object of `kind`: malformed
/// attributes, or a missing or bad `ref` of an `nd` of a way or of a
/// `member` of a relation.
pub open spec fn child_error(kind: ObjectKind, c: Child) -> Option<ObjectError> {
    match c.1 {
        Err(_) => Some(ObjectError::Malformed),
        Ok(a) => if (kind == ObjectKind::Way && c.0 == "nd"@) || (kind == ObjectKind::Relation && c.0
            == "member"@) {
            match required_u64(a, "ref"@) {
                Err(e) => Some(e),
                Ok(_) => None,
            }
        } else {
            None
        },
    }
}

/// The first error of an object read from its attributes and children: that
/// of its attributes, else that of its first bad child.
pub open spec fn object_outcome(
    kind: ObjectKind,
    action: Action,
    attrs: Result<Seq<Attr>, XmlError>,
    children: Seq<Child>,
) -> Option<ObjectError>
    decreases children.len(),
{
    if children.len() == 0 {
        match attrs {
            Err(_) => Some(ObjectError::Malformed),
            Ok(a) => header_error(kind, action, a),
        }
    } else {
        let prev = object_outcome(kind, action, attrs, children.drop_last());
        if prev is Some {
            prev
        } else {
            child_error(kind, children.last())
        }
    }
}

/// The value that the `tag` children store under `k`: the last one wins.
pub open spec fn child_tag(children: Seq<Child>, k: Seq<char>) -> Option<Seq<char>>
    decreases children.len(),
{
    if children.len() == 0 {
        None
    } else {
        let c = children.last();
        if c.0 == "tag"@ && c.1 is Ok && attr_or_empty(c.1->Ok_0, "k"@) == k {
            Some(attr_or_empty(c.1->Ok_0, "v"@))
        } else {
            child_tag(children.drop_last(), k)
        }
    }
}

/// The `ref`s of the `nd` children, in order.
pub open spec fn child_refs(children: Seq<Child>) -> Seq<u64>
    decreases children.len(),
{
    if children.len() == 0 {
        Seq::empty()
    } else {
        let prev = child_refs(children.drop_last());
        let c = children.last();
        if c.0 == "nd"@ && c.1 is Ok {
            prev.push(required_u64(c.1->Ok_0, "ref"@)->Ok_0)
        } else {
            prev
        }
    }
}

/// The attributes of the `member` children, in order.
pub open spec fn child_members(children: Seq<Child>) -> Seq<Seq<Attr>>
    decreases children.len(),
{
    if children.len() == 0 {
        Seq::empty()
    } else {
        let prev = child_members(children.drop_last());
        let c = children.last();
        if c.0 == "member"@ && c.1 is Ok {
            prev.push(c.1->Ok_0)
        } else {
            prev
        }
    }
}

/// `o` is the object of `kind` under `action` that attributes `a` and the
/// children give: its header from `a`, its tags from the `tag` children, the
/// nodes of a way from its `nd` children and the members of a relation from
/// its `member` children, in order. Other children change nothing.
pub open spec fn object_read(o: OSMObject, kind: ObjectKind, action: Action, a: Seq<Attr>, children: Seq<Child>) -> bool {
    &&& header_fields(o, kind, action, a)
    &&& forall|k: Seq<char>| #[trigger] tag_value(object_tags(o), k) == child_tag(children, k)
    &&& way_nodes(o) == (if kind == ObjectKind::Way {
        child_refs(children)
    } else {
        Seq::<u64>::empty()
    })
    &&& relation_members(o).len() == (if kind == ObjectKind::Relation {
        child_members(children).len()
    } else {
        0
    })
    &&& kind == ObjectKind::Relation ==> forall|i: int|
        0 <= i < relation_members(o).len() ==> member_from(
            #[trigger] relation_members(o)[i],
            child_members(children)[i],
        )
}

/// Where the reading of an osmChange document stands.
pub enum ChangeMode {
    Top,
    Group(Action),
    Object(Action, ObjectKind, Result<Seq<Attr>, XmlError>, Seq<Child>),
    Done,
}

/// An object element read in full, without error.
pub struct ObjectRead {
    pub action: Action,
    pub kind: ObjectKind,
    pub attrs: Seq<Attr>,
    pub children: Seq<Child>,
}

/// One event of an osmChange document: the mode after it, and the object
/// read in full with it, if any. At the top, a `create`, `modify` or
/// `delete` opens a grouping; in a grouping, a `node`, `way` or `relation`
/// opens an object; the end of an object without error yields it.
pub open spec fn change_step(m: ChangeMode, e: Ev) -> (ChangeMode, Seq<ObjectRead>) {
    match m {
        ChangeMode::Top => match e {
            Ev::Start(n, _) => match action_named(n) {
                Some(a) => (ChangeMode::Group(a), Seq::empty()),
                None => (ChangeMode::Top, Seq::empty()),
            },
            Ev::Eof => (ChangeMode::Done, Seq::empty()),
            _ => (ChangeMode::Top, Seq::empty()),
        },
        ChangeMode::Group(a) => match e {
            Ev::Start(n, at) => match kind_named(n) {
                Some(k) => (ChangeMode::Object(a, k, at, Seq::empty()), Seq::empty()),
                None => (ChangeMode::Group(a), Seq::empty()),
            },
            Ev::End(_) => (ChangeMode::Top, Seq::empty()),
            Ev::Eof => (ChangeMode::Done, Seq::empty()),
            _ => (ChangeMode::Group(a), Seq::empty()),
        },
        ChangeMode::Object(a, k, at, ch) => match e {
            Ev::Start(n, ca) => (ChangeMode::Object(a, k, at, ch.push((n, ca))), Seq::empty()),
            Ev::End(_) => (
                ChangeMode::Group(a),
                if object_outcome(k, a, at, ch) is None {
                    seq![ObjectRead { action: a, kind: k, attrs: at->Ok_0, children: ch }]
                } else {
                    Seq::empty()
                },
            ),
            Ev::Eof => (ChangeMode::Done, Seq::empty()),
            _ => (ChangeMode::Object(a, k, at, ch), Seq::empty()),
        },
        ChangeMode::Done => (ChangeMode::Done, Seq::empty()),
    }
}

/// The events `evs` read from mode `m`: the mode after them, and the objects
/// read in full, in order.
pub open spec fn change_run(m: ChangeMode, evs: Seq<Ev>) -> (ChangeMode, Seq<ObjectRead>)
    decreases evs.len(),
{
    if evs.len() == 0 {
        (m, Seq::empty())
    } else {
        let (m1, out1) = change_run(m, evs.drop_last());
        let (m2, out2) = change_step(m1, evs.last());
        (m2, out1 + out2)
    }
}

proof fn lemma_change_run_push(m: ChangeMode, evs: Seq<Ev>, e: Ev)
    ensures
        change_run(m, evs.push(e)) == (change_step(change_run(m, evs).0, e).0, change_run(m, evs).1
            + change_step(change_run(m, evs).0, e).1),
{
    assert(evs.push(e).drop_last() =~= evs);
}

proof fn lemma_change_run_append(m: ChangeMode, a: Seq<Ev>, b: Seq<Ev>)
    ensures
        change_run(m, a + b) == (change_run(change_run(m, a).0, b).0, change_run(m, a).1 + change_run(
            change_run(m, a).0,
            b,
        ).1),
    decreases b.len(),
{
    if b.len() == 0 {
        assert(a + b =~= a);
        assert(change_run(m, a).1 + Seq::<ObjectRead>::empty() =~= change_run(m, a).1);
    } else {
        lemma_change_run_append(m, a, b.drop_last());
        assert((a + b).drop_last() =~= a + b.drop_last());
        assert((a + b).last() == b.last());
        let x = change_run(m, a).1;
        let y = change_run(change_run(m, a).0, b.drop_last()).1;
        let z = change_step(change_run(change_run(m, a).0, b.drop_last()).0, b.last()).1;
        assert((x + y) + z =~= x + (y + z));
    }
}

proof fn lemma_outcome_attrs(kind: ObjectKind, action: Action, at: Result<Seq<Attr>, XmlError>, ch: Seq<Child>)
    requires
        object_outcome(kind, action, at, ch) is None,
    ensures
        at is Ok,
    decreases ch.len(),
{
    if ch.len() > 0 {
        lemma_outcome_attrs(kind, action, at, ch.drop_last());
    }
}

proof fn lemma_object_inside(a: Action, k: ObjectKind, at: Result<Seq<Attr>, XmlError>, evs: Seq<Ev>)
    requires
        forall|i: int| 0 <= i < evs.len() ==> !(#[trigger] evs[i] is End) && !(evs[i] is Eof),
    ensures
        change_run(ChangeMode::Object(a, k, at, Seq::empty()), evs) == (ChangeMode::Object(a, k, at, starts(evs)), Seq::<ObjectRead>::empty()),
    decreases evs.len(),
{
    if evs.len() > 0 {
        let p = evs.drop_last();
        assert forall|i: int| 0 <= i < p.len() implies !(#[trigger] p[i] is End) && !(p[i] is Eof) by {
            assert(p[i] == evs[i]);
        }
        lemma_object_inside(a, k, at, p);
        assert(evs[evs.len() - 1] == evs.last());
        assert(Seq::<ObjectRead>::empty() + Seq::<ObjectRead>::empty() =~= Seq::<ObjectRead>::empty());
    }
}

/// The rest of an object element takes the reading back to its grouping,
/// with the object read in full where it has no error.
proof fn lemma_object_rest(a: Action, k: ObjectKind, at: Result<Seq<Attr>, XmlError>, evs: Seq<Ev>)
    requires
        element_rest(evs),
    ensures
        change_run(ChangeMode::Object(a, k, at, Seq::empty()), evs) == (ChangeMode::Group(a), if object_outcome(k, a, at, starts(evs)) is None {
            seq![ObjectRead { action: a, kind: k, attrs: at->Ok_0, children: starts(evs) }]
        } else {
            Seq::<ObjectRead>::empty()
        }),
{
    let p = evs.drop_last();
    assert forall|i: int| 0 <= i < p.len() implies !(#[trigger] p[i] is End) && !(p[i] is Eof) by {
        assert(p[i] == evs[i]);
    }
    lemma_object_inside(a, k, at, p);
    assert(evs =~= p.push(evs.last()));
    lemma_rest_push(p, evs.last());
    lemma_change_run_push(ChangeMode::Object(a, k, at, Seq::empty()), p, evs.last());
    assert(Seq::<ObjectRead>::empty() + seq![ObjectRead { action: a, kind: k, attrs: at->Ok_0, children: starts(p) }] =~= seq![ObjectRead { action: a, kind: k, attrs: at->Ok_0, children: starts(p) }]);
    assert(Seq::<ObjectRead>::empty() + Seq::<ObjectRead>::empty() =~= Seq::<ObjectRead>::empty());
}

/// `d` is the delta of the object read `m`.
pub open spec fn delta_read(d: Delta, m: ObjectRead) -> bool {
    d.action == m.action && object_read(d.object, m.kind, m.action, m.attrs, m.children)
}

/// Each delta of `ds` is that of the object read at its place in `ms`.
pub open spec fn deltas_read(ds: Seq<Delta>, ms: Seq<ObjectRead>) -> bool {
    ds.len() == ms.len() && forall|i: int| 0 <= i < ds.len() ==> delta_read(#[trigger] ds[i], ms[i])
}

/// Reads the object whose start, `element`, was the last event of `src`, up
/// to and including its end: the object that the element's attributes
/// describe, then each child applied through `add_child`, the rest of each
/// child being skipped. The result is the object error of the first bad
/// attribute or child where there is one, and the object read otherwise. An
/// object error leaves the source after the element, so that reading goes on
/// with the next one; an XML error ends the document.
pub fn read_object<R: std::io::BufRead>(
    src: &mut XmlSource<R>,
    element: &XmlElement,
    kind: ObjectKind,
    action: Action,
) -> (r: Result<Result<OSMObject, ObjectError>, XmlError>)
    ensures
        final(src).fuel() <= old(src).fuel(),
        extends(final(src).events(), old(src).events()),
        r matches Ok(res) ==> {
            let evs = added(final(src).events(), old(src).events());
            let outcome = object_outcome(kind, action, attrs_view(element.attrs), starts(evs));
            &&& element_rest(evs)
            &&& res is Err <==> outcome is Some
            &&& res matches Err(e) ==> outcome == Some(e)
            &&& res matches Ok(o) ==> element.attrs is Ok && object_read(
                o,
                kind,
                action,
                attrs_view(element.attrs)->Ok_0,
                starts(evs),
            )
        },
{
    proof {
        reveal_strlit("tag");
        reveal_strlit("nd");
        reveal_strlit("member");
        assert("tag"@.len() == 3);
        assert("nd"@.len() == 2);
        assert("member"@.len() == 6);
    }
    let ghost before = src.events();
    let mut result = match &element.attrs {
        Ok(attrs) => object_from_attributes(kind, action, attrs),
        Err(_) => Err(ObjectError::Malformed),
    };
    proof {
        lemma_extends_refl(before);
        if result is Ok {
            let o = result->Ok_0;
            assert(way_nodes(o) =~= Seq::<u64>::empty());
            assert forall|k: Seq<char>| #[trigger] tag_value(object_tags(o), k) == child_tag(Seq::empty(), k) by {
            }
        }
    }
    loop
        invariant
            src.fuel() <= old(src).fuel(),
            before == old(src).events(),
            extends(src.events(), before),
            forall|i: int|
                0 <= i < added(src.events(), before).len() ==> !(#[trigger] added(src.events(), before)[i] is End)
                    && !(added(src.events(), before)[i] is Eof),
            result is Err <==> object_outcome(kind, action, attrs_view(element.attrs), starts(added(src.events(), before))) is Some,
            result matches Err(e) ==> object_outcome(kind, action, attrs_view(element.attrs), starts(added(src.events(), before))) == Some(e),
            result matches Ok(o) ==> element.attrs is Ok && object_read(
                o,
                kind,
                action,
                attrs_view(element.attrs)->Ok_0,
                starts(added(src.events(), before)),
            ),
        decreases src.fuel(),
    {
        let ghost seg = added(src.events(), before);
        let ghost ch = starts(seg);
        let ghost evs0 = src.events();
        let ev = src.next();
        if let Ok(e) = &ev {
            proof {
                lemma_extends_push(before, evs0, event_view(*e));
            }
        }
        match ev {
            Err(e) => {
                return Err(e);
            },
            Ok(XmlEvent::Eof) => {
                return Err(XmlError::Syntax);
            },
            Ok(XmlEvent::End(name)) => {
                proof {
                    lemma_rest_push(seg, Ev::End(name@));
                }
                if str_eq(name.as_str(), element.name.as_str()) {
                    return Ok(result);
                }
                return Err(XmlError::Syntax);
            },
            Ok(XmlEvent::Other) => {
                proof {
                    lemma_rest_push(seg, Ev::Other);
                }
            },
            Ok(XmlEvent::Start(child)) => {
                let ghost c: Child = (child.name@, attrs_view(child.attrs));
                proof {
                    lemma_rest_push(seg, Ev::Start(c.0, c.1));
                    let ch1 = ch.push(c);
                    assert(ch1.drop_last() =~= ch);
                }
                let ghost result0 = result;
                let outcome = match &child.attrs {
                    Err(_) => Err(ObjectError::Malformed),
                    Ok(child_attrs) => match &mut result {
                        Ok(o) => add_child(o, child.name.as_str(), child_attrs),
                        Err(_) => Ok(()),
                    },
                };
                if let Err(e) = outcome {
                    if result.is_ok() {
                        result = Err(e);
                    }
                }
                proof {
                    let ch1 = ch.push(c);
                    assert(ch1.drop_last() =~= ch);
                    assert(ch1.last() == c);
                    if result is Ok {
                        let o0 = result0->Ok_0;
                        let o = result->Ok_0;
                        let a = c.1->Ok_0;
                        assert forall|k: Seq<char>| #[trigger] tag_value(object_tags(o), k) == child_tag(ch1, k) by {
                            assert(tag_value(object_tags(o0), k) == child_tag(ch, k));
                        }
                        if kind == ObjectKind::Way {
                            assert(way_nodes(o) =~= child_refs(ch1));
                        } else {
                            assert(way_nodes(o) =~= Seq::<u64>::empty());
                        }
                        let cm = child_members(ch);
                        let cm1 = child_members(ch1);
                        if kind == ObjectKind::Relation {
                            assert forall|i: int| 0 <= i < relation_members(o).len() implies member_from(
                                #[trigger] relation_members(o)[i],
                                cm1[i],
                            ) by {
                                if i < cm.len() {
                                    assert(cm1[i] == cm[i]);
                                    assert(relation_members(o)[i] == relation_members(o0)[i]) by {
                                        if c.0 == "member"@ {
                                            assert(relation_members(o).drop_last()[i] == relation_members(o)[i]);
                                        }
                                    }
                                }
                            }
                        }
                    }
                }
                let ghost evs1 = src.events();
                let ghost seg1 = added(evs1, before);
                if let Err(e) = src.skip(&child) {
                    return Err(e);
                }
                proof {
                    lemma_extends_push(before, evs1, Ev::Skipped(child.name@));
                    lemma_rest_push(seg1, Ev::Skipped(child.name@));
                }
            },
        }
    }
}

/// Reads the grouping element `group` (a `create`, `modify` or `delete`)
/// up to its end, appending a delta with `action` for each object in it that
/// could be read, in order. Objects that could not be read are left out.
fn read_group<R: std::io::BufRead>(
    src: &mut XmlSource<R>,
    group: &XmlElement,
    action: Action,
    deltas: &mut Vec<Delta>,
) -> (r: Result<(), XmlError>)
    ensures
        final(src).fuel() <= old(src).fuel(),
        extends(final(src).events(), old(src).events()),
        final(deltas)@.len() >= old(deltas)@.len(),
        final(deltas)@.take(old(deltas)@.len() as int) == old(deltas)@,
        r is Ok ==> {
            let run = change_run(ChangeMode::Group(action), added(final(src).events(), old(src).events()));
            &&& run.0 == ChangeMode::Top
            &&& deltas_read(final(deltas)@.skip(old(deltas)@.len() as int), run.1)
        },
{
    let ghost start = deltas@;
    let ghost before = src.events();
    proof {
        lemma_extends_refl(before);
        assert(deltas@.skip(start.len() as int) =~= Seq::<Delta>::empty());
        assert(deltas@.take(start.len() as int) =~= start);
    }
    loop
        invariant
            src.fuel() <= old(src).fuel(),
            start == old(deltas)@,
            before == old(src).events(),
            extends(src.events(), before),
            deltas@.len() >= start.len(),
            deltas@.take(start.len() as int) == start,
            change_run(ChangeMode::Group(action), added(src.events(), before)).0 == ChangeMode::Group(action),
            deltas_read(deltas@.skip(start.len() as int), change_run(ChangeMode::Group(action), added(src.events(), before)).1),
        decreases src.fuel(),
    {
        let ghost evs0 = src.events();
        let ghost seg = added(evs0, before);
        let ghost m = change_run(ChangeMode::Group(action), seg).1;
        let ev = src.next();
        if let Ok(e) = &ev {
            proof {
                lemma_extends_push(before, evs0, event_view(*e));
                lemma_change_run_push(ChangeMode::Group(action), seg, event_view(*e));
                assert(m + Seq::<ObjectRead>::empty() =~= m);
            }
        }
        match ev {
            Err(e) => {
                return Err(e);
            },
            Ok(XmlEvent::Eof) => {
                return Err(XmlError::Syntax);
            },
            Ok(XmlEvent::End(name)) => {
                if str_eq(name.as_str(), group.name.as_str()) {
                    return Ok(());
                }
                return Err(XmlError::Syntax);
            },
            Ok(XmlEvent::Other) => {},
            Ok(XmlEvent::Start(element)) => {
                let ghost at = attrs_view(element.attrs);
                let ghost evs1 = src.events();
                match kind_of_element(element.name.as_str()) {
                    Some(kind) => {
                        let res = read_object(src, &element, kind, action);
                        let ghost evs2 = src.events();
                        proof {
                            lemma_extends_trans(before, evs1, evs2);
                        }
                        match res {
                            Err(e) => {
                                return Err(e);
                            },
                            Ok(res) => {
                                proof {
                                    let seg1 = added(evs1, before);
                                    let rest = added(evs2, evs1);
                                    lemma_change_run_append(ChangeMode::Group(action), seg1, rest);
                                    lemma_object_rest(action, kind, at, rest);
                                }
                                let ghost ds0 = deltas@;
                                match res {
                                    Ok(object) => {
                                        deltas.push(Delta { action, object });
                                        proof {
                                            let rest = added(evs2, evs1);
                                            let item = ObjectRead { action, kind, attrs: at->Ok_0, children: starts(rest) };
                                            assert(deltas@.take(start.len() as int) =~= start);
                                            assert(deltas@.skip(start.len() as int) =~= ds0.skip(start.len() as int).push(Delta { action, object }));
                                            assert(m + seq![item] =~= m.push(item));
                                            assert(delta_read(Delta { action, object }, item));
                                        }
                                    },
                                    Err(_) => {
                                        assert(m + Seq::<ObjectRead>::empty() =~= m);
                                    },
                                }
                            },
                        }
                    },
                    None => {
                        if let Err(e) = src.skip(&element) {
                            return Err(e);
                        }
                        proof {
                            lemma_extends_push(before, evs1, Ev::Skipped(element.name@));
                            lemma_change_run_push(ChangeMode::Group(action), added(evs1, before), Ev::Skipped(element.name@));
                            assert(m + Seq::<ObjectRead>::empty() =~= m);
                        }
                    },
                }
            },
        }
    }
}

/// Reads an osmChange document to its end: the objects of each `create`,
/// `modify` and `delete` grouping, in document order, each with the action
/// of its grouping, as the events read give them. An object that cannot be
/// read is left out; an XML error ends the reading with that error.
pub fn parse_changes<R: std::io::BufRead>(src: &mut XmlSource<R>) -> (r: Result<Vec<Delta>, XmlError>)
    ensures
        extends(final(src).events(), old(src).events()),
        r matches Ok(ds) ==> {
            let run = change_run(ChangeMode::Top, added(final(src).events(), old(src).events()));
            &&& run.0 == ChangeMode::Done
            &&& deltas_read(ds@, run.1)
        },
{
    let ghost before = src.events();
    let mut deltas: Vec<Delta> = Vec::new();
    proof {
        lemma_extends_refl(before);
    }
    loop
        invariant
            before == old(src).events(),
            extends(src.events(), before),
            change_run(ChangeMode::Top, added(src.events(), before)).0 == ChangeMode::Top,
            deltas_read(deltas@, change_run(ChangeMode::Top, added(src.events(), before)).1),
        decreases src.fuel(),
    {
        let ghost evs0 = src.events();
        let ghost seg = added(evs0, before);
        let ghost m = change_run(ChangeMode::Top, seg).1;
        let ev = src.next();
        if let Ok(e) = &ev {
            proof {
                lemma_extends_push(before, evs0, event_view(*e));
                lemma_change_run_push(ChangeMode::Top, seg, event_view(*e));
                assert(m + Seq::<ObjectRead>::empty() =~= m);
            }
        }
        match ev {
            Err(e) => {
                return Err(e);
            },
            Ok(XmlEvent::Eof) => {
                return Ok(deltas);
            },
            Ok(XmlEvent::Start(element)) => {
                if let Some(action) = action_of_element(element.name.as_str()) {
                    let ghost evs1 = src.events();
                    let ghost ds0 = deltas@;
                    let done = read_group(src, &element, action, &mut deltas);
                    proof {
                        lemma_extends_trans(before, evs1, src.events());
                    }
                    if let Err(e) = done {
                        return Err(e);
                    }
                    proof {
                        let evs2 = src.events();
                        let rest = added(evs2, evs1);
                        lemma_change_run_append(ChangeMode::Top, added(evs1, before), rest);
                        let n = change_run(ChangeMode::Group(action), rest).1;
                        assert(deltas@ =~= ds0 + deltas@.skip(ds0.len() as int));
                        assert forall|i: int| 0 <= i < deltas@.len() implies delta_read(#[trigger] deltas@[i], (m + n)[i]) by {
                            if i < ds0.len() {
                                assert(deltas@[i] == ds0[i]);
                            } else {
                                assert(deltas@[i] == deltas@.skip(ds0.len() as int)[i - ds0.len()]);
                            }
                        }
                    }
                }
            },
            Ok(_) => {},
        }
    }
}

} // verus!
