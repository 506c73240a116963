use vstd::prelude::*;

use crate::manifest::Manifest;
use crate::manifest::ManifestPieceRef;
use crate::piece::PieceRef;
use crate::table::{lemma_table_value, Keyed, PieceTable};

verus! {

/// Where the content of a piece can be read: `len` bytes at offset `from` of the file
/// whose path, as the bytes the operating system names it by, is `file`.
#[derive(Clone, Debug)]
pub struct DirectoryPieceRef {
    pub from: u64,
    pub len: u64,
    pub reference: PieceRef,
    pub file: Vec<u8>,
}

/// The mathematical value of a `DirectoryPieceRef`.
pub struct DirectoryEntry {
    pub from: u64,
    pub len: u64,
    pub reference: Seq<u8>,
    pub file: Seq<u8>,
}

impl View for DirectoryPieceRef {
    type V = DirectoryEntry;

    open spec fn view(&self) -> DirectoryEntry {
        DirectoryEntry { from: self.from, len: self.len, reference: self.reference@, file: self.file@ }
    }
}

/// The entry that `Directory::add_manifest` records for piece `p` of a manifest of `file`.
pub open spec fn manifest_entry(p: ManifestPieceRef, file: Seq<u8>) -> DirectoryEntry {
    DirectoryEntry { from: p.from, len: p.len, reference: p.piece@, file }
}

/// `dir` with an entry for each of `pieces`, in order, each one replacing any
/// earlier entry with the same reference.
pub open spec fn with_manifest(
    dir: Map<Seq<u8>, DirectoryEntry>,
    pieces: Seq<ManifestPieceRef>,
    file: Seq<u8>,
) -> Map<Seq<u8>, DirectoryEntry>
    decreases pieces.len(),
{
    if pieces.len() == 0 {
        dir
    } else {
        with_manifest(dir, pieces.drop_last(), file).insert(
            pieces.last().piece@,
            manifest_entry(pieces.last(), file),
        )
    }
}

/// No piece after position `i` of `pieces` has the reference of piece `i`.
pub open spec fn is_last_with_reference(pieces: Seq<ManifestPieceRef>, i: int) -> bool {
    forall|j: int| i < j < pieces.len() ==> #[trigger] pieces[j].piece@ != pieces[i].piece@
}

/// After a manifest is added, a reference of one of its pieces leads to the last piece
/// of the manifest with that reference, in the manifest's file.
pub proof fn lemma_with_manifest_last_wins(
    dir: Map<Seq<u8>, DirectoryEntry>,
    pieces: Seq<ManifestPieceRef>,
    file: Seq<u8>,
    i: int,
)
    requires
        0 <= i < pieces.len(),
        forall|j: int| i < j < pieces.len() ==> #[trigger] pieces[j].piece@ != pieces[i].piece@,
    ensures
        with_manifest(dir, pieces, file).dom().contains(pieces[i].piece@),
        with_manifest(dir, pieces, file)[pieces[i].piece@] == manifest_entry(pieces[i], file),
        with_manifest(dir, pieces, file)[pieces[i].piece@].from == pieces[i].from,
        with_manifest(dir, pieces, file)[pieces[i].piece@].len == pieces[i].len,
        with_manifest(dir, pieces, file)[pieces[i].piece@].reference == pieces[i].piece@,
        with_manifest(dir, pieces, file)[pieces[i].piece@].file == file,
    decreases pieces.len(),
{
    if i < pieces.len() - 1 {
        let rest = pieces.drop_last();
        assert forall|j: int| i < j < rest.len() implies #[trigger] rest[j].piece@ != rest[i].piece@ by {
            assert(rest[j] == pieces[j]);
        }
        lemma_with_manifest_last_wins(dir, rest, file, i);
        assert(rest[i] == pieces[i]);
        assert(pieces[pieces.len() - 1] == pieces.last());
    }
}

/// After a manifest is added, a reference of none of its pieces leads where it led before.
pub proof fn lemma_with_manifest_others(
    dir: Map<Seq<u8>, DirectoryEntry>,
    pieces: Seq<ManifestPieceRef>,
    file: Seq<u8>,
    k: Seq<u8>,
)
    requires
        forall|j: int| 0 <= j < pieces.len() ==> #[trigger] pieces[j].piece@ != k,
    ensures
        with_manifest(dir, pieces, file).dom().contains(k) == dir.dom().contains(k),
        dir.dom().contains(k) ==> with_manifest(dir, pieces, file)[k] == dir[k],
    decreases pieces.len(),
{
    if pieces.len() > 0 {
        let rest = pieces.drop_last();
        assert forall|j: int| 0 <= j < rest.len() implies #[trigger] rest[j].piece@ != k by {
            assert(rest[j] == pieces[j]);
        }
        lemma_with_manifest_others(dir, rest, file, k);
        assert(pieces[pieces.len() - 1] == pieces.last());
    }
}

impl Keyed for DirectoryPieceRef {
    type Value = DirectoryEntry;

    open spec fn key(&self) -> Seq<u8> {
        self.reference@
    }

    open spec fn entry_view(&self) -> DirectoryEntry {
        self@
    }

    fn key_ref(&self) -> (r: &PieceRef) {
        &self.reference
    }
}

/// An index from piece references to the places where their content lies.
#[derive(Debug)]
pub struct Directory {
    pieces: PieceTable<DirectoryPieceRef>,
}

impl View for Directory {
    type V = Map<Seq<u8>, DirectoryEntry>;

    closed spec fn view(&self) -> Map<Seq<u8>, DirectoryEntry> {
        self.pieces@
    }
}

/// Every entry of a directory is filed under its own reference.
pub proof fn lemma_entry_reference_is_key(d: Directory, k: Seq<u8>)
    requires
        d@.dom().contains(k),
    ensures
        d@[k].reference == k,
{
    lemma_table_value(d.pieces, k);
}

/// A vector holding the bytes of `b`, in order.
fn copy_bytes(b: &[u8]) -> (v: Vec<u8>)
    ensures
        v@ == b@,
{
    let mut v: Vec<u8> = Vec::new();
    let mut i: usize = 0;
    while i < b.len()
        invariant
            0 <= i <= b@.len(),
            v@ == b@.subrange(0, i as int),
        decreases b@.len() - i,
    {
        v.push(b[i]);
        i = i + 1;
        assert(v@ =~= b@.subrange(0, i as int));
    }
    assert(v@ =~= b@);
    v
}

/// A copy of `p`, field by field.
fn copy_piece_ref(p: &DirectoryPieceRef) -> (r: DirectoryPieceRef)
    ensures
        r@ == p@,
{
    DirectoryPieceRef { from: p.from, len: p.len, reference: p.reference, file: copy_bytes(p.file.as_slice()) }
}

impl Directory {
    /// An empty directory.
    pub fn new() -> (d: Directory)
        ensures
            d@ == Map::<Seq<u8>, DirectoryEntry>::empty(),
    {
        Directory { pieces: PieceTable::new() }
    }

    /// Records every piece of `manifest` as lying in the file at `path`; a later piece
    /// replaces an earlier one with the same reference.
    pub fn add_manifest(&mut self, path: &[u8], manifest: &Manifest)
        ensures
            final(self)@ == with_manifest(old(self)@, manifest.pieces@, path@),
            forall|i: int|
                #![trigger manifest.pieces@[i]]
                0 <= i < manifest.pieces@.len() && is_last_with_reference(manifest.pieces@, i) ==> {
                    &&& final(self)@.dom().contains(manifest.pieces@[i].piece@)
                    &&& final(self)@[manifest.pieces@[i].piece@].from == manifest.pieces@[i].from
                    &&& final(self)@[manifest.pieces@[i].piece@].len == manifest.pieces@[i].len
                    &&& final(self)@[manifest.pieces@[i].piece@].reference == manifest.pieces@[i].piece@
                    &&& final(self)@[manifest.pieces@[i].piece@].file == path@
                },
            forall|k: Seq<u8>|
                (forall|j: int| 0 <= j < manifest.pieces@.len() ==> #[trigger] manifest.pieces@[j].piece@ != k) ==> {
                    &&& #[trigger] final(self)@.dom().contains(k) == old(self)@.dom().contains(k)
                    &&& old(self)@.dom().contains(k) ==> final(self)@[k] == old(self)@[k]
                },
    {
        let n = manifest.pieces.len();
        let mut i: usize = 0;
        while i < n
            invariant
                n == manifest.pieces@.len(),
                0 <= i <= n,
                self@ == with_manifest(old(self)@, manifest.pieces@.subrange(0, i as int), path@),
            decreases n - i,
        {
            let piece = manifest.pieces[i];
            let entry = DirectoryPieceRef {
                from: piece.from,
                len: piece.len,
                reference: piece.piece,
                file: copy_bytes(path),
            };
            self.pieces.insert(entry);
            assert(manifest.pieces@.subrange(0, i + 1).drop_last() =~= manifest.pieces@.subrange(0, i as int));
            i = i + 1;
        }
        assert(manifest.pieces@.subrange(0, n as int) =~= manifest.pieces@);
        proof {
            let ps = manifest.pieces@;
            assert forall|i: int|
                #![trigger ps[i]]
                0 <= i < ps.len() && is_last_with_reference(ps, i) implies {
                &&& self@.dom().contains(ps[i].piece@)
                &&& self@[ps[i].piece@].from == ps[i].from
                &&& self@[ps[i].piece@].len == ps[i].len
                &&& self@[ps[i].piece@].reference == ps[i].piece@
                &&& self@[ps[i].piece@].file == path@
            } by {
                lemma_with_manifest_last_wins(old(self)@, ps, path@, i);
            }
            assert forall|k: Seq<u8>| (forall|j: int| 0 <= j < ps.len() ==> #[trigger] ps[j].piece@ != k) implies {
                &&& #[trigger] self@.dom().contains(k) == old(self)@.dom().contains(k)
                &&& old(self)@.dom().contains(k) ==> self@[k] == old(self)@[k]
            } by {
                lemma_with_manifest_others(old(self)@, ps, path@, k);
            }
        }
    }

    /// A directory with the same entries.
    pub fn duplicate(&self) -> (d: Directory)
        ensures
            d@ == self@,
    {
        Directory { pieces: self.pieces.duplicate() }
    }

    /// Where the content of the piece with reference `piece_ref` lies, if it is known.
    pub fn find_piece(&self, piece_ref: &PieceRef) -> (found: Option<DirectoryPieceRef>)
        ensures
            found is Some <==> self@.dom().contains(piece_ref@),
            found matches Some(d) ==> d@ == self@[piece_ref@] && d.reference@ == piece_ref@,
    {
        match self.pieces.get(piece_ref) {
            Some(d) => Some(copy_piece_ref(d)),
            None => None,
        }
    }
}

} // verus!
