//! Facts about the record of events that a source keeps: how it grows, and
//! what the rest of an element looks like in it.
use vstd::prelude::*;
use crate::xml::{Attr, Ev, XmlError};

verus! {

/// `new` is `old` with events added at its end.
pub open spec fn extends(new: Seq<Ev>, old: Seq<Ev>) -> bool {
    new.len() >= old.len() && new.take(old.len() as int) == old
}

/// The events of `new` after those of `old`.
pub open spec fn added(new: Seq<Ev>, old: Seq<Ev>) -> Seq<Ev> {
    new.skip(old.len() as int)
}

pub proof fn lemma_extends_trans(a: Seq<Ev>, b: Seq<Ev>, c: Seq<Ev>)
    requires
        extends(b, a),
        extends(c, b),
    ensures
        extends(c, a),
        added(c, a) == added(b, a) + added(c, b),
{
    assert(c.take(a.len() as int) =~= c.take(b.len() as int).take(a.len() as int));
    assert(added(c, a) =~= added(b, a) + added(c, b)) by {
        assert forall|i: int| 0 <= i < added(c, a).len() implies added(c, a)[i] == (added(b, a)
            + added(c, b))[i] by {
            if i < b.len() - a.len() {
                assert(c.take(b.len() as int)[a.len() + i] == c[a.len() + i]);
            }
        }
    }
}

pub proof fn lemma_extends_push(a: Seq<Ev>, b: Seq<Ev>, e: Ev)
    requires
        extends(b, a),
    ensures
        extends(b.push(e), a),
        added(b.push(e), a) == added(b, a).push(e),
{
    assert(b.push(e).take(a.len() as int) =~= b.take(a.len() as int));
    assert(added(b.push(e), a) =~= added(b, a).push(e));
}

pub proof fn lemma_extends_refl(a: Seq<Ev>)
    ensures
        extends(a, a),
        added(a, a) == Seq::<Ev>::empty(),
{
    assert(a.take(a.len() as int) =~= a);
    assert(added(a, a) =~= Seq::<Ev>::empty());
}

/// A child element as read: its name and its attributes.
pub type Child = (Seq<char>, Result<Seq<Attr>, XmlError>);

/// The starts among `evs`, in order: the children of an element whose rest
/// `evs` is.
pub open spec fn starts(evs: Seq<Ev>) -> Seq<Child>
    decreases evs.len(),
{
    if evs.len() == 0 {
        Seq::empty()
    } else {
        let p = starts(evs.drop_last());
        match evs.last() {
            Ev::Start(n, a) => p.push((n, a)),
            _ => p,
        }
    }
}

/// `evs` is the rest of an element after its start: events inside it, with
/// neither an end nor the end of the document, then its end.
pub open spec fn element_rest(evs: Seq<Ev>) -> bool {
    &&& evs.len() > 0
    &&& evs.last() is End
    &&& forall|i: int| 0 <= i < evs.len() - 1 ==> !(#[trigger] evs[i] is End) && !(evs[i] is Eof)
}

pub proof fn lemma_rest_push(evs: Seq<Ev>, e: Ev)
    requires
        forall|i: int| 0 <= i < evs.len() ==> !(#[trigger] evs[i] is End) && !(evs[i] is Eof),
        !(e is Eof),
    ensures
        e is End ==> element_rest(evs.push(e)),
        !(e is End) ==> forall|i: int|
            0 <= i < evs.push(e).len() ==> !(#[trigger] evs.push(e)[i] is End) && !(evs.push(e)[i] is Eof),
        starts(evs.push(e)) == match e {
            Ev::Start(n, a) => starts(evs).push((n, a)),
            _ => starts(evs),
        },
{
    assert(evs.push(e).drop_last() =~= evs);
    assert forall|i: int| 0 <= i < evs.push(e).len() - 1 implies !(#[trigger] evs.push(e)[i] is End) && !(evs.push(e)[i] is Eof) by {
        assert(evs.push(e)[i] == evs[i]);
    }
}

} // verus!
