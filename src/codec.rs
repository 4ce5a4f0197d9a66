//! The compressed inputs: gzip'd change files and zstd'd changeset archives,
//! read as XML sources.
use vstd::prelude::*;
use std::io::BufReader;
use flate2::bufread::GzDecoder;
use quick_xml::Reader;
use crate::changesets::{
    archive_run, changesets_read, covers, parse_changeset, wanted_view, ArchiveMode, Changeset,
};
use crate::objects::{change_run, deltas_read, parse_changes, ChangeMode, Delta, ObjectRead};
use crate::events::added;
use crate::xml::Ev;
use crate::xml::{XmlError, XmlSource};

verus! {

#[verifier::external_type_specification]
#[verifier::external_body]
#[verifier::reject_recursive_types(R)]
pub struct ExBufReader<R: ?Sized>(BufReader<R>);

#[verifier::external_type_specification]
#[verifier::external_body]
#[verifier::reject_recursive_types(R)]
pub struct ExGzDecoder<R>(GzDecoder<R>);

#[verifier::external_type_specification]
#[verifier::external_body]
#[verifier::reject_recursive_types(R)]
pub struct ExZstdDecoder<'a, R>(zstd::stream::read::Decoder<'a, R>);

/// The events of a gzip'd change file.
pub type ChangeSource<'a> = XmlSource<BufReader<GzDecoder<&'a [u8]>>>;

/// The events of a zstd'd changeset archive.
pub type ArchiveSource<'a> = XmlSource<BufReader<zstd::stream::read::Decoder<'static, &'a [u8]>>>;

/// Relies on flate2's `bufread::GzDecoder::new`, std's `BufReader::new` and
/// quick_xml's `Reader::from_reader`: an XML reader over the bytes that
/// `data` decompresses to, decompressed as they are read.
#[verifier::external_body]
fn gzip_xml_reader<'a>(data: &'a [u8]) -> (r: Reader<BufReader<GzDecoder<&'a [u8]>>>) {
    Reader::from_reader(BufReader::new(GzDecoder::new(data)))
}

/// Relies on zstd's `stream::read::Decoder::with_buffer`, std's
/// `BufReader::new` and quick_xml's `Reader::from_reader`: an XML reader
/// over the bytes that `data` decompresses to, decompressed as they are
/// read; `None` where the decoder cannot be set up.
#[verifier::external_body]
fn zstd_xml_reader<'a>(data: &'a [u8]) -> (r: Option<Reader<BufReader<zstd::stream::read::Decoder<'static, &'a [u8]>>>>) {
    match zstd::stream::read::Decoder::with_buffer(data) {
        Ok(d) => Some(Reader::from_reader(BufReader::new(d))),
        Err(_) => None,
    }
}

/// The XML events of a zstd'd changeset archive.
pub fn uncompress_changeset_file<'a>(data: &'a [u8]) -> (r: Result<ArchiveSource<'a>, XmlError>)
    ensures
        r matches Ok(s) ==> s.events().len() == 0,
{
    match zstd_xml_reader(data) {
        Some(reader) => Ok(XmlSource::new(reader)),
        None => Err(XmlError::Read),
    }
}

/// The XML events of a gzip'd change file, none read yet.
pub fn change_source<'a>(data: &'a [u8]) -> (r: ChangeSource<'a>)
    ensures
        r.events().len() == 0,
{
    XmlSource::new(gzip_xml_reader(data))
}

/// The deltas of a gzip'd osmChange file, in document order: those that
/// `parse_changes` reads from `change_source(data)`, whose contract ties them
/// to the events read. An empty file holds none.
pub fn read_change_file(data: &[u8]) -> (r: Result<Vec<Delta>, XmlError>)
    ensures
        data@.len() == 0 ==> (r matches Ok(d) && d@.len() == 0),
        r matches Ok(ds) ==> exists|evs: Seq<Ev>|
            change_run(ChangeMode::Top, evs).0 == ChangeMode::Done && #[trigger] deltas_read(
                ds@,
                change_run(ChangeMode::Top, evs).1,
            ),
{
    if data.len() == 0 {
        let r: Result<Vec<Delta>, XmlError> = Ok(Vec::new());
        proof {
            let evs = seq![Ev::Eof];
            assert(evs.drop_last() =~= Seq::<Ev>::empty());
            assert(evs.last() == Ev::Eof);
            assert(change_run(ChangeMode::Top, Seq::<Ev>::empty()) == (ChangeMode::Top, Seq::<ObjectRead>::empty()));
            assert(change_run(ChangeMode::Top, evs) == (ChangeMode::Done, Seq::<ObjectRead>::empty() + Seq::<ObjectRead>::empty()));
            assert(Seq::<ObjectRead>::empty() + Seq::<ObjectRead>::empty() =~= Seq::<ObjectRead>::empty());
            assert(deltas_read(r->Ok_0@, change_run(ChangeMode::Top, evs).1));
        }
        return r;
    }
    let mut src = change_source(data);
    let ghost e0 = src.events();
    let r = parse_changes(&mut src);
    proof {
        if r is Ok {
            let evs = added(src.events(), e0);
            assert(deltas_read(r->Ok_0@, change_run(ChangeMode::Top, evs).1));
        }
    }
    r
}

/// The changesets of a zstd'd archive whose id is wanted, in document
/// order, as the events read give them; reading stops once every wanted id
/// is found, or else at the end of the document. An empty list of wanted ids
/// reads nothing.
pub fn read_changeset_archive(data: &[u8], wanted: &Vec<u64>) -> (r: Result<Vec<Changeset>, XmlError>)
    ensures
        r matches Ok(found) ==> forall|i: int|
            0 <= i < found@.len() ==> wanted@.contains(#[trigger] found@[i].id),
        r matches Ok(found) ==> exists|evs: Seq<Ev>|
            #[trigger] changesets_read(found@, archive_run(Some(wanted@), ArchiveMode::Top, evs).1) && (
            archive_run(Some(wanted@), ArchiveMode::Top, evs).0 == ArchiveMode::Done || covers(
                found@,
                wanted@,
            )),
        wanted@.len() == 0 ==> (r matches Ok(found) && found@.len() == 0),
{
    if wanted.len() == 0 {
        let r: Result<Vec<Changeset>, XmlError> = Ok(Vec::new());
        proof {
            let evs = Seq::<Ev>::empty();
            assert(changesets_read(r->Ok_0@, archive_run(Some(wanted@), ArchiveMode::Top, evs).1));
            assert(covers(r->Ok_0@, wanted@));
        }
        return r;
    }
    let mut src = match uncompress_changeset_file(data) {
        Ok(s) => s,
        Err(e) => {
            return Err(e);
        },
    };
    let w = Some(wanted.clone());
    proof {
        assert(w->Some_0@ == wanted@);
        assert(wanted_view(w) == Some(wanted@));
    }
    let ghost e0 = src.events();
    let r = parse_changeset(&mut src, &w);
    proof {
        if r is Ok {
            let evs = added(src.events(), e0);
            assert(changesets_read(r->Ok_0@, archive_run(Some(wanted@), ArchiveMode::Top, evs).1));
        }
    }
    r
}

} // verus!
