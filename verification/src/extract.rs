//! The walk from the manifest over archives and items to the files that a
//! repository holds. The walk decides what is fetched, skipped and written;
//! decoding the fetched objects and writing the files is the caller's part.

use crate::envelope::unpack_data;
use crate::envelope::unwrapped;
use crate::envelope::EnvelopeError;
use crate::records::archive_ids;
use crate::records::chunk_ids;
use crate::records::ids_view;
use crate::records::Archive;
use crate::records::ItemMetadata;
use crate::records::Manifest;
use crate::store::ObjectStore;
use crate::store::Objects;
use vstd::prelude::*;

verus! {

/// Why the walk ended before its end.
#[derive(Clone, Copy, Debug, PartialEq, Eq, Structural)]
pub enum ExtractError {
    /// The store holds no manifest.
    ManifestMissing,
    /// The store does not hold a chunk that an item names.
    ChunkMissing,
    /// A stored blob could not be unwrapped.
    Envelope(EnvelopeError),
}

/// The all-zero identifier, under which the manifest is stored.
pub open spec fn manifest_key() -> Seq<u8> {
    Seq::new(32, |i: int| 0u8)
}

/// The all-zero identifier, under which the manifest is stored.
pub fn manifest_id() -> (id: [u8; 32])
    ensures
        id@ == manifest_key(),
{
    let id: [u8; 32] = [0u8; 32];
    assert(id@ =~= manifest_key());
    id
}

/// The payload stored under `id`: none where the store does not hold the
/// identifier, an error where it holds a blob that does not unwrap.
pub open spec fn fetched(store: Objects, id: Seq<u8>) -> Result<Option<Seq<u8>>, ExtractError> {
    if store.contains_key(id) {
        match unwrapped(store[id]) {
            Ok(payload) => Ok(Some(payload)),
            Err(e) => Err(ExtractError::Envelope(e)),
        }
    } else {
        Ok(None)
    }
}

/// The contents of a fetch.
pub open spec fn fetch_view(r: Result<Option<Vec<u8>>, ExtractError>) -> Result<
    Option<Seq<u8>>,
    ExtractError,
> {
    match r {
        Ok(Some(payload)) => Ok(Some(payload@)),
        Ok(None) => Ok(None),
        Err(e) => Err(e),
    }
}

/// The contents of a payload or of the error in its place.
pub open spec fn bytes_view(r: Result<Vec<u8>, ExtractError>) -> Result<Seq<u8>, ExtractError> {
    match r {
        Ok(payload) => Ok(payload@),
        Err(e) => Err(e),
    }
}

/// Looks `id` up and unwraps what is stored under it.
pub fn fetch(store: &ObjectStore, id: &[u8; 32]) -> (r: Result<Option<Vec<u8>>, ExtractError>)
    ensures
        fetch_view(r) == fetched(store@, id@),
{
    match store.get(id) {
        None => Ok(None),
        Some(blob) => match unpack_data(blob.as_slice()) {
            Ok(payload) => Ok(Some(payload)),
            Err(e) => Err(ExtractError::Envelope(e)),
        },
    }
}

/// The payload of the manifest; a store without one is `ManifestMissing`.
pub open spec fn manifest_payload(store: Objects) -> Result<Seq<u8>, ExtractError> {
    match fetched(store, manifest_key()) {
        Ok(Some(payload)) => Ok(payload),
        Ok(None) => Err(ExtractError::ManifestMissing),
        Err(e) => Err(e),
    }
}

/// The payload of the manifest, to be decoded.
pub fn manifest_blob(store: &ObjectStore) -> (r: Result<Vec<u8>, ExtractError>)
    ensures
        bytes_view(r) == manifest_payload(store@),
{
    let id = manifest_id();
    match fetch(store, &id) {
        Ok(Some(payload)) => Ok(payload),
        Ok(None) => Err(ExtractError::ManifestMissing),
        Err(e) => Err(e),
    }
}

/// The name of the file that an item is written to: its path, with two
/// underscores in place of every slash.
pub open spec fn flat_name(path: Seq<u8>) -> Seq<u8>
    decreases path.len(),
{
    if path.len() == 0 {
        Seq::empty()
    } else if path.last() == 0x2f {
        flat_name(path.drop_last()) + seq![0x5fu8, 0x5fu8]
    } else {
        flat_name(path.drop_last()).push(path.last())
    }
}

/// A flat name holds no slash: a file never lands outside the output
/// directory.
pub proof fn lemma_flat_name_has_no_slash(path: Seq<u8>)
    ensures
        forall|i: int| 0 <= i < flat_name(path).len() ==> flat_name(path)[i] != 0x2f,
    decreases path.len(),
{
    if path.len() > 0 {
        let front = flat_name(path.drop_last());
        lemma_flat_name_has_no_slash(path.drop_last());
        assert forall|i: int| 0 <= i < flat_name(path).len() implies flat_name(path)[i]
            != 0x2f by {
            if i < front.len() {
                assert(flat_name(path)[i] == front[i]);
            }
        }
    }
}

/// The payloads of the chunks, one after the other. A chunk that the store
/// does not hold is `ChunkMissing`; the first chunk that fails decides.
pub open spec fn assembled(store: Objects, chunks: Seq<Seq<u8>>) -> Result<Seq<u8>, ExtractError>
    decreases chunks.len(),
{
    if chunks.len() == 0 {
        Ok(Seq::empty())
    } else {
        match assembled(store, chunks.drop_last()) {
            Err(e) => Err(e),
            Ok(front) => match fetched(store, chunks.last()) {
                Ok(Some(payload)) => Ok(front + payload),
                Ok(None) => Err(ExtractError::ChunkMissing),
                Err(e) => Err(e),
            },
        }
    }
}

/// A file to be written.
#[derive(Debug, PartialEq, Eq)]
pub struct OutputFile {
    /// The file's name in the output directory, as bytes.
    pub name: Vec<u8>,
    /// The file's contents.
    pub data: Vec<u8>,
}

/// The file's name for an item's path.
pub fn output_name(path: &[u8]) -> (name: Vec<u8>)
    ensures
        name@ == flat_name(path@),
{
    let mut name: Vec<u8> = Vec::new();
    let mut i: usize = 0;
    assert(path@.take(0) =~= Seq::<u8>::empty());
    while i < path.len()
        invariant
            i <= path@.len(),
            name@ == flat_name(path@.take(i as int)),
        decreases path@.len() - i,
    {
        proof {
            assert(path@.take(i + 1).drop_last() =~= path@.take(i as int));
            assert(path@.take(i + 1).last() == path@[i as int]);
        }
        let ghost before = name@;
        if path[i] == 0x2f {
            name.push(0x5f);
            name.push(0x5f);
            assert(name@ =~= before + seq![0x5fu8, 0x5fu8]);
        } else {
            name.push(path[i]);
        }
        i += 1;
    }
    assert(path@.take(path@.len() as int) =~= path@);
    name
}

/// The file that an item stands for: its flat name, and the payloads of its
/// chunks, in order, as its contents. An item without chunks is an empty
/// file.
pub fn output_file(store: &ObjectStore, item: &ItemMetadata) -> (r: Result<
    OutputFile,
    ExtractError,
>)
    ensures
        match r {
            Ok(file) => file.name@ == flat_name(item.path@) && Ok::<Seq<u8>, ExtractError>(
                file.data@,
            ) == assembled(store@, chunk_ids(item.chunks@)),
            Err(e) => Err::<Seq<u8>, ExtractError>(e) == assembled(
                store@,
                chunk_ids(item.chunks@),
            ),
        },
{
    let ghost ids = chunk_ids(item.chunks@);
    let mut data: Vec<u8> = Vec::new();
    let mut i: usize = 0;
    assert(ids.take(0) =~= Seq::<Seq<u8>>::empty());
    while i < item.chunks.len()
        invariant
            i <= item.chunks@.len(),
            ids == chunk_ids(item.chunks@),
            Ok::<Seq<u8>, ExtractError>(data@) == assembled(store@, ids.take(i as int)),
        decreases item.chunks@.len() - i,
    {
        proof {
            assert(ids.take(i + 1).drop_last() =~= ids.take(i as int));
            assert(ids.take(i + 1).last() == item.chunks@[i as int].id@);
        }
        match fetch(store, &item.chunks[i].id) {
            Ok(Some(payload)) => {
                let mut payload = payload;
                data.append(&mut payload);
            },
            Ok(None) => {
                proof {
                    lemma_failure_stays(store@, ids, i + 1);
                }
                return Err(ExtractError::ChunkMissing);
            },
            Err(e) => {
                proof {
                    lemma_failure_stays(store@, ids, i + 1);
                }
                return Err(e);
            },
        }
        i += 1;
    }
    assert(ids.take(ids.len() as int) =~= ids);
    Ok(OutputFile { name: output_name(item.path.as_slice()), data })
}

/// Once the chunks up to `n` have failed, the chunks as a whole fail in the
/// same way.
proof fn lemma_failure_stays(store: Objects, chunks: Seq<Seq<u8>>, n: int)
    requires
        0 <= n <= chunks.len(),
        assembled(store, chunks.take(n)) is Err,
    ensures
        assembled(store, chunks) == assembled(store, chunks.take(n)),
    decreases chunks.len() - n,
{
    if n == chunks.len() {
        assert(chunks.take(n) =~= chunks);
    } else {
        assert(chunks.take(n + 1).drop_last() =~= chunks.take(n));
        lemma_failure_stays(store, chunks, n + 1);
    }
}

/// What the walk asks of its caller next.
#[derive(Debug, PartialEq, Eq)]
pub enum Request {
    /// Decode this payload as an archive and hand it to [`Extraction::enter`].
    DecodeArchive(Vec<u8>),
    /// Decode the item records that this payload holds, one after the
    /// other, and write the file of each; see [`output_file`].
    DecodeItems(Vec<u8>),
    /// Nothing is left to visit.
    Finished,
}

/// A request as a mathematical value.
pub enum RequestView {
    DecodeArchive(Seq<u8>),
    DecodeItems(Seq<u8>),
    Finished,
}

impl View for Request {
    type V = RequestView;

    open spec fn view(&self) -> RequestView {
        match self {
            Request::DecodeArchive(payload) => RequestView::DecodeArchive(payload@),
            Request::DecodeItems(payload) => RequestView::DecodeItems(payload@),
            Request::Finished => RequestView::Finished,
        }
    }
}

/// What is still to be visited: the item objects of the archive at hand,
/// then the archives behind it, each in order.
pub struct Pending {
    pub items: Seq<Seq<u8>>,
    pub archives: Seq<Seq<u8>>,
}

/// One step of the walk and what is pending after it.
///
/// While item objects are pending, the first is fetched: its payload is to
/// be decoded; one that the store does not hold is skipped. Then the
/// archives are fetched in the same way. A blob that does not unwrap ends
/// the step with its error; the identifier is not looked at again.
pub open spec fn stepped(store: Objects, pending: Pending) -> (
    Pending,
    Result<RequestView, ExtractError>,
)
    decreases pending.items.len() + pending.archives.len(),
{
    if pending.items.len() > 0 {
        let rest = Pending { items: pending.items.skip(1), archives: pending.archives };
        match fetched(store, pending.items[0]) {
            Ok(Some(payload)) => (rest, Ok(RequestView::DecodeItems(payload))),
            Ok(None) => stepped(store, rest),
            Err(e) => (rest, Err(e)),
        }
    } else if pending.archives.len() > 0 {
        let rest = Pending { items: pending.items, archives: pending.archives.skip(1) };
        match fetched(store, pending.archives[0]) {
            Ok(Some(payload)) => (rest, Ok(RequestView::DecodeArchive(payload))),
            Ok(None) => stepped(store, rest),
            Err(e) => (rest, Err(e)),
        }
    } else {
        (pending, Ok(RequestView::Finished))
    }
}

/// The contents of the result of a step.
pub open spec fn request_view(r: Result<Request, ExtractError>) -> Result<
    RequestView,
    ExtractError,
> {
    match r {
        Ok(request) => Ok(request@),
        Err(e) => Err(e),
    }
}

/// The walk over the archives of a manifest.
#[derive(Debug)]
pub struct Extraction {
    archives: Vec<[u8; 32]>,
    next_archive: usize,
    items: Vec<[u8; 32]>,
    next_item: usize,
}

impl View for Extraction {
    type V = Pending;

    closed spec fn view(&self) -> Pending {
        Pending {
            items: ids_view(self.items@).skip(self.next_item as int),
            archives: ids_view(self.archives@).skip(self.next_archive as int),
        }
    }
}

impl Extraction {
    #[verifier::type_invariant]
    spec fn within(&self) -> bool {
        self.next_archive <= self.archives@.len() && self.next_item <= self.items@.len()
    }

    /// The walk over the archives that the manifest lists, in the order in
    /// which it lists them.
    pub fn new(manifest: &Manifest) -> (walk: Extraction)
        ensures
            walk@.items == Seq::<Seq<u8>>::empty(),
            walk@.archives == archive_ids(manifest.archives@),
    {
        let mut archives: Vec<[u8; 32]> = Vec::new();
        let mut i: usize = 0;
        while i < manifest.archives.len()
            invariant
                i <= manifest.archives@.len(),
                archives@.len() == i,
                forall|j: int| 0 <= j < i ==> archives@[j]@ == manifest.archives@[j].1.id@,
            decreases manifest.archives@.len() - i,
        {
            archives.push(manifest.archives[i].1.id);
            i += 1;
        }
        let walk = Extraction { archives, next_archive: 0, items: Vec::new(), next_item: 0 };
        assert(walk@.archives =~= archive_ids(manifest.archives@));
        assert(walk@.items =~= Seq::<Seq<u8>>::empty());
        walk
    }

    /// Takes up a decoded archive: its item objects are visited next, in
    /// the order in which the archive lists them, in place of what was
    /// pending of the archive before it.
    pub fn enter(&mut self, archive: &Archive)
        ensures
            final(self)@.items == ids_view(archive.items@),
            final(self)@.archives == old(self)@.archives,
    {
        proof {
            use_type_invariant(&*self);
        }
        let mut items: Vec<[u8; 32]> = Vec::new();
        let mut i: usize = 0;
        while i < archive.items.len()
            invariant
                i <= archive.items@.len(),
                items@.len() == i,
                forall|j: int| 0 <= j < i ==> items@[j] == archive.items@[j],
            decreases archive.items@.len() - i,
        {
            items.push(archive.items[i]);
            i += 1;
        }
        assert(items@ =~= archive.items@);
        self.next_item = 0;
        self.items = items;
        assert(self@.items =~= ids_view(archive.items@));
    }

    /// The next step of the walk, as [`stepped`] defines it.
    pub fn advance(&mut self, store: &ObjectStore) -> (r: Result<Request, ExtractError>)
        ensures
            (final(self)@, request_view(r)) == stepped(store@, old(self)@),
    {
        proof {
            use_type_invariant(&*self);
        }
        let ghost goal = stepped(store@, self@);
        while self.next_item < self.items.len()
            invariant
                self.within(),
                goal == stepped(store@, old(self)@),
                stepped(store@, self@) == goal,
            decreases self.items@.len() - self.next_item,
        {
            let ghost before = self@;
            let id = self.items[self.next_item];
            self.next_item = self.next_item + 1;
            proof {
                assert(before.items[0] == id@);
                assert(self@.items =~= before.items.skip(1));
                assert(self@.archives == before.archives);
            }
            match fetch(store, &id) {
                Ok(Some(payload)) => {
                    return Ok(Request::DecodeItems(payload));
                },
                Ok(None) => {},
                Err(e) => {
                    return Err(e);
                },
            }
        }
        while self.next_archive < self.archives.len()
            invariant
                self.within(),
                self.next_item == self.items@.len(),
                goal == stepped(store@, old(self)@),
                stepped(store@, self@) == goal,
            decreases self.archives@.len() - self.next_archive,
        {
            let ghost before = self@;
            let id = self.archives[self.next_archive];
            self.next_archive = self.next_archive + 1;
            proof {
                assert(before.items.len() == 0);
                assert(before.archives[0] == id@);
                assert(self@.archives =~= before.archives.skip(1));
                assert(self@.items =~= before.items);
            }
            match fetch(store, &id) {
                Ok(Some(payload)) => {
                    return Ok(Request::DecodeArchive(payload));
                },
                Ok(None) => {},
                Err(e) => {
                    return Err(e);
                },
            }
        }
        assert(self@.items.len() == 0 && self@.archives.len() == 0);
        Ok(Request::Finished)
    }
}

} // verus!
