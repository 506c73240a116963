use vstd::prelude::*;

use crate::piece::{blake2b_512, PieceRef};

verus! {

/// Number of bytes of content in every piece but the last of a manifest.
pub const PIECE_BYTES: usize = 1048576;

/// Extension of a manifest file: the extension of the file it describes followed by
/// `.blizzard`, or `blizzard` alone for a file without extension.
pub open spec fn spec_manifest_file_extension(extension: Seq<char>) -> Seq<char> {
    if extension.len() == 0 {
        "blizzard"@
    } else {
        extension + "."@ + "blizzard"@
    }
}

/// The extension of the manifest file of a file whose extension is `extension`
/// (empty where it has none).
pub fn manifest_file_extension(extension: &str) -> (e: String)
    ensures
        e@ == spec_manifest_file_extension(extension@),
        extension@.len() > 0 ==> e@ == extension@ + ".blizzard"@,
        extension@.len() == 0 ==> e@ == "blizzard"@,
{
    proof { lemma_manifest_file_extension(extension@); }
    if extension.is_empty() {
        "blizzard".to_owned()
    } else {
        let mut e = extension.to_owned();
        e.append(".");
        e.append("blizzard");
        e
    }
}

/// The manifest file of a file with an extension keeps that whole extension and adds
/// `.blizzard` after it; only a file without extension gets `blizzard` alone. So files
/// that differ in their extension get different manifest files.
pub proof fn lemma_manifest_file_extension(extension: Seq<char>)
    ensures
        extension.len() > 0 ==> spec_manifest_file_extension(extension) == extension + ".blizzard"@,
        extension.len() == 0 ==> spec_manifest_file_extension(extension) == "blizzard"@,
        spec_manifest_file_extension(extension).len() == if extension.len() > 0 { extension.len() + 9 } else { 8 },
        extension.len() > 0 ==> spec_manifest_file_extension(extension).subrange(0, extension.len() as int) == extension,
{
    reveal_strlit(".");
    reveal_strlit("blizzard");
    reveal_strlit(".blizzard");
    assert("."@ + "blizzard"@ =~= ".blizzard"@);
    assert(extension + "."@ + "blizzard"@ =~= extension + ".blizzard"@);
    if extension.len() > 0 {
        assert((extension + ".blizzard"@).subrange(0, extension.len() as int) =~= extension);
    }
}

/// One piece of a file: `len` bytes at offset `from`, with their reference.
#[derive(Clone, Copy, Debug)]
pub struct ManifestPieceRef {
    pub from: u64,
    pub len: u64,
    pub piece: PieceRef,
}

/// The list of pieces that a file is made of.
#[derive(Clone, Debug)]
pub struct Manifest {
    pub name: Option<String>,
    pub pieces: Vec<ManifestPieceRef>,
}

/// End offset (exclusive) of a piece.
pub open spec fn piece_end(p: ManifestPieceRef) -> int {
    p.from + p.len
}

/// The largest end offset of `pieces`, or 0 for none.
pub open spec fn max_end(pieces: Seq<ManifestPieceRef>) -> int
    decreases pieces.len(),
{
    if pieces.len() == 0 {
        0
    } else {
        let rest = max_end(pieces.drop_last());
        let last = piece_end(pieces.last());
        if last > rest { last } else { rest }
    }
}

/// The offset at which a piece appended after `pieces` starts: the end of the last piece.
pub open spec fn next_offset(pieces: Seq<ManifestPieceRef>) -> int {
    if pieces.len() == 0 { 0 } else { piece_end(pieces.last()) }
}

/// Whether `p` is the piece of `data` that starts at `from` and holds `len` bytes.
pub open spec fn describes(p: ManifestPieceRef, data: Seq<u8>) -> bool {
    &&& p.from + p.len <= data.len()
    &&& p.piece@ == blake2b_512(data.subrange(p.from as int, p.from + p.len))
}

/// `p` is piece number `i` of `data`: it starts at `i * PIECE_BYTES` inside `data` and
/// holds `PIECE_BYTES` bytes, or the rest of `data` where fewer are left.
pub open spec fn is_piece_at(p: ManifestPieceRef, i: int, data: Seq<u8>) -> bool {
    &&& p.from == i * PIECE_BYTES
    &&& p.from < data.len()
    &&& p.len == if data.len() - p.from < PIECE_BYTES {
        data.len() - p.from
    } else {
        PIECE_BYTES as int
    }
    &&& describes(p, data)
}

/// `pieces` cut `data` into consecutive pieces of `PIECE_BYTES` bytes, the last one
/// possibly shorter and none empty, each with the reference of its bytes.
pub open spec fn is_layout_of(pieces: Seq<ManifestPieceRef>, data: Seq<u8>) -> bool {
    &&& pieces.len() * PIECE_BYTES >= data.len()
    &&& forall|i: int| 0 <= i < pieces.len() ==> is_piece_at(#[trigger] pieces[i], i, data)
}

/// Every end offset of a piece is at most `max_end`, which is the end of one of them
/// (or 0 where there is none).
pub proof fn lemma_max_end_bounds(pieces: Seq<ManifestPieceRef>)
    ensures
        forall|i: int| 0 <= i < pieces.len() ==> piece_end(#[trigger] pieces[i]) <= max_end(pieces),
        pieces.len() == 0 ==> max_end(pieces) == 0,
        pieces.len() > 0 ==> exists|i: int| 0 <= i < pieces.len() && piece_end(#[trigger] pieces[i]) == max_end(pieces),
    decreases pieces.len(),
{
    if pieces.len() > 0 {
        let rest = pieces.drop_last();
        lemma_max_end_bounds(rest);
        assert forall|i: int| 0 <= i < pieces.len() implies piece_end(#[trigger] pieces[i]) <= max_end(pieces) by {
            if i < rest.len() {
                assert(rest[i] == pieces[i]);
            }
        }
        if rest.len() > 0 && max_end(rest) >= piece_end(pieces.last()) {
            let i = choose|i: int| 0 <= i < rest.len() && piece_end(#[trigger] rest[i]) == max_end(rest);
            assert(pieces[i] == rest[i]);
        } else {
            assert(pieces[pieces.len() - 1] == pieces.last());
        }
    }
}

/// The pieces of a layout follow each other without gap or overlap from offset 0 to
/// the end of the content: each holds between 1 and `PIECE_BYTES` bytes, all but the
/// last exactly `PIECE_BYTES`, and there are none for empty content.
pub proof fn lemma_layout_contiguous(pieces: Seq<ManifestPieceRef>, data: Seq<u8>)
    requires
        is_layout_of(pieces, data),
    ensures
        data.len() == 0 <==> pieces.len() == 0,
        pieces.len() > 0 ==> pieces[0].from == 0 && piece_end(pieces.last()) == data.len(),
        forall|i: int| 0 <= i < pieces.len() ==> 0 < #[trigger] pieces[i].len <= PIECE_BYTES,
        forall|i: int| 0 <= i < pieces.len() - 1 ==> #[trigger] pieces[i].len == PIECE_BYTES
            && pieces[i + 1].from == piece_end(pieces[i]),
{
    let n = pieces.len();
    if n > 0 {
        assert(is_piece_at(pieces[0], 0, data));
        let last = pieces[n - 1];
        assert(is_piece_at(last, n - 1, data));
        assert((n - 1) * PIECE_BYTES + PIECE_BYTES == n * PIECE_BYTES) by (nonlinear_arith);
    }
    assert forall|i: int| 0 <= i < n - 1 implies #[trigger] pieces[i].len == PIECE_BYTES
        && pieces[i + 1].from == piece_end(pieces[i]) by {
        assert(is_piece_at(pieces[i], i, data));
        assert(is_piece_at(pieces[i + 1], i + 1, data));
        assert((i + 1) * PIECE_BYTES == i * PIECE_BYTES + PIECE_BYTES) by (nonlinear_arith);
    }
    assert forall|i: int| 0 <= i < n implies 0 < #[trigger] pieces[i].len <= PIECE_BYTES by {
        assert(is_piece_at(pieces[i], i, data));
    }
}

/// The length of a manifest made from content is the length of that content.
pub proof fn lemma_layout_len(pieces: Seq<ManifestPieceRef>, data: Seq<u8>)
    requires
        is_layout_of(pieces, data),
    ensures
        max_end(pieces) == data.len(),
        forall|i: int| 0 <= i < pieces.len() ==> piece_end(#[trigger] pieces[i]) <= data.len(),
{
    lemma_layout_contiguous(pieces, data);
    lemma_max_end_bounds(pieces);
    assert forall|i: int| 0 <= i < pieces.len() implies piece_end(#[trigger] pieces[i]) <= data.len() by {
        assert(is_piece_at(pieces[i], i, data));
    }
    if pieces.len() > 0 {
        assert(pieces[pieces.len() - 1] == pieces.last());
        let i = choose|i: int| 0 <= i < pieces.len() && piece_end(#[trigger] pieces[i]) == max_end(pieces);
    }
}

impl ManifestPieceRef {
    /// Whether `buf` is the content of this piece.
    pub fn verify(&self, buf: &[u8]) -> (ok: bool)
        ensures
            ok == (self.piece@ == blake2b_512(buf@)),
    {
        self.piece.verify(buf)
    }

    /// The digest bytes of this piece's reference.
    pub fn ref_vec(&self) -> (v: Vec<u8>)
        ensures
            v@ == self.piece@,
    {
        self.piece.to_vec()
    }
}

impl Manifest {
    /// A manifest with the given name and no pieces.
    pub fn empty(name: Option<String>) -> (m: Manifest)
        ensures
            m.name == name,
            m.pieces@.len() == 0,
    {
        Manifest { name, pieces: Vec::new() }
    }

    /// Appends the piece whose content is `chunk`, placed right after the last piece.
    pub fn push_piece(&mut self, chunk: &[u8])
        requires
            next_offset(old(self).pieces@) + chunk@.len() <= u64::MAX,
        ensures
            final(self).name == old(self).name,
            final(self).pieces@.len() == old(self).pieces@.len() + 1,
            final(self).pieces@.drop_last() == old(self).pieces@,
            final(self).pieces@.last().from == next_offset(old(self).pieces@),
            final(self).pieces@.last().len == chunk@.len(),
            final(self).pieces@.last().piece@ == blake2b_512(chunk@),
    {
        let piece = PieceRef::for_buffer(chunk);
        self.push_piece_ref(chunk.len() as u64, piece);
    }

    /// Appends a piece of `len` bytes with reference `piece`, placed right after the last piece.
    pub fn push_piece_ref(&mut self, len: u64, piece: PieceRef)
        requires
            next_offset(old(self).pieces@) + len <= u64::MAX,
        ensures
            final(self).name == old(self).name,
            final(self).pieces@ == old(self).pieces@.push(
                ManifestPieceRef { from: next_offset(old(self).pieces@) as u64, len, piece },
            ),
    {
        let n = self.pieces.len();
        let from: u64 = if n == 0 {
            0
        } else {
            self.pieces[n - 1].from + self.pieces[n - 1].len
        };
        self.pieces.push(ManifestPieceRef { from, len, piece });
    }

    /// The manifest of a file named `name` whose content is `data`: the content cut
    /// into pieces of `PIECE_BYTES` bytes, the last one possibly shorter.
    pub fn for_contents(name: Option<String>, data: &[u8]) -> (m: Manifest)
        ensures
            m.name == name,
            is_layout_of(m.pieces@, data@),
    {
        let mut m = Manifest::empty(name);
        let total = data.len();
        assert(total <= u64::MAX);
        let mut pos: usize = 0;
        while pos < total
            invariant
                total == data@.len() <= u64::MAX,
                m.name == name,
                pos <= total,
                pos == m.pieces@.len() * PIECE_BYTES || (pos == total && m.pieces@.len() * PIECE_BYTES >= total),
                pos == next_offset(m.pieces@),
                pos < total ==> pos == m.pieces@.len() * PIECE_BYTES,
                forall|i: int| 0 <= i < m.pieces@.len() ==> is_piece_at(#[trigger] m.pieces@[i], i, data@),
            decreases total - pos,
        {
            let end: usize = if total - pos < PIECE_BYTES { total } else { pos + PIECE_BYTES };
            let chunk = &data[pos..end];
            let ghost before = m.pieces@;
            let ghost k = before.len();
            m.push_piece(chunk);
            proof {
                assert(m.pieces@[k as int] == m.pieces@.last());
                assert forall|i: int| 0 <= i < k implies is_piece_at(m.pieces@[i], i, data@) by {
                    assert(m.pieces@.drop_last()[i] == m.pieces@[i]);
                    assert(is_piece_at(before[i], i, data@));
                }
                assert((k + 1) * PIECE_BYTES == k * PIECE_BYTES + PIECE_BYTES) by (nonlinear_arith);
                let np = m.pieces@[k as int];
                assert(np.from == pos);
                assert(np.from == k * PIECE_BYTES);
                assert(chunk@ == data@.subrange(np.from as int, np.from + np.len));
                assert(describes(np, data@));
                assert(is_piece_at(np, k as int, data@));
            }
            pos = end;
        }
        m
    }

    /// The length of the described file: the largest end offset of a piece.
    pub fn len(&self) -> (n: u64)
        requires
            forall|i: int| 0 <= i < self.pieces@.len() ==> piece_end(#[trigger] self.pieces@[i]) <= u64::MAX,
        ensures
            n == max_end(self.pieces@),
            forall|i: int| 0 <= i < self.pieces@.len() ==> self.pieces@[i].from + self.pieces@[i].len <= n,
            self.pieces@.len() == 0 ==> n == 0,
            self.pieces@.len() > 0 ==> exists|i: int|
                0 <= i < self.pieces@.len() && #[trigger] self.pieces@[i].from + self.pieces@[i].len == n,
    {
        proof { lemma_max_end_bounds(self.pieces@); }
        let mut best: u64 = 0;
        let mut i: usize = 0;
        while i < self.pieces.len()
            invariant
                0 <= i <= self.pieces@.len(),
                forall|k: int| 0 <= k < self.pieces@.len() ==> piece_end(#[trigger] self.pieces@[k]) <= u64::MAX,
                best == max_end(self.pieces@.subrange(0, i as int)),
            decreases self.pieces@.len() - i,
        {
            let p = self.pieces[i];
            let end = p.from + p.len;
            assert(self.pieces@.subrange(0, i + 1).drop_last() =~= self.pieces@.subrange(0, i as int));
            if end > best {
                best = end;
            }
            i = i + 1;
        }
        assert(self.pieces@.subrange(0, i as int) =~= self.pieces@);
        best
    }
}

} // verus!
