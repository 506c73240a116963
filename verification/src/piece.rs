use blake2::{Blake2b512, Digest};
use vstd::prelude::*;

verus! {

/// Number of bytes in a piece reference (a BLAKE2b-512 digest).
pub const HASH_BYTES: usize = 64;

/// The BLAKE2b-512 digest of `data`, as `blake2::Blake2b512` computes it.
pub uninterp spec fn blake2b_512(data: Seq<u8>) -> Seq<u8>;

/// Calls `<blake2::Blake2b512 as Digest>::digest` on `data`.
/// Claimed: the 64 returned bytes are the digest of `data`, named by
/// `blake2b_512`; the digest depends on the bytes of `data` alone.
#[verifier::external_body]
fn blake2b_digest(data: &[u8]) -> (out: [u8; 64])
    ensures
        out@ == blake2b_512(data@),
{
    Blake2b512::digest(data).into()
}

/// The character of hexadecimal digit `d` (below 16), upper case.
pub open spec fn hex_digit(d: int) -> char {
    if d < 10 { (48 + d) as char } else { (55 + d) as char }
}

/// `bytes` in upper-case hexadecimal, two digits per byte, most significant first.
pub open spec fn hex_upper(bytes: Seq<u8>) -> Seq<char>
    decreases bytes.len(),
{
    if bytes.len() == 0 {
        Seq::empty()
    } else {
        hex_upper(bytes.drop_last()) + seq![hex_digit(bytes.last() as int / 16), hex_digit(bytes.last() as int % 16)]
    }
}

/// `hex_upper(bytes)` has two characters per byte: at position `2 * i` the upper-case
/// hexadecimal digit of the high four bits of byte `i`, at `2 * i + 1` that of its low four bits.
pub proof fn lemma_hex_upper(bytes: Seq<u8>)
    ensures
        hex_upper(bytes).len() == 2 * bytes.len(),
        forall|i: int| 0 <= i < bytes.len() ==> {
            &&& #[trigger] hex_upper(bytes)[2 * i] == "0123456789ABCDEF"@[bytes[i] as int / 16]
            &&& hex_upper(bytes)[2 * i + 1] == "0123456789ABCDEF"@[bytes[i] as int % 16]
        },
    decreases bytes.len(),
{
    reveal_strlit("0123456789ABCDEF");
    if bytes.len() > 0 {
        let prev = bytes.drop_last();
        lemma_hex_upper(prev);
        let n = prev.len() as int;
        assert forall|i: int| 0 <= i < bytes.len() implies {
            &&& #[trigger] hex_upper(bytes)[2 * i] == "0123456789ABCDEF"@[bytes[i] as int / 16]
            &&& hex_upper(bytes)[2 * i + 1] == "0123456789ABCDEF"@[bytes[i] as int % 16]
        } by {
            if i < n {
                assert(prev[i] == bytes[i]);
                assert(hex_upper(prev)[2 * i] == "0123456789ABCDEF"@[prev[i] as int / 16]);
            } else {
                assert(bytes[i] == bytes.last());
            }
        }
    }
}

/// The one-character string of hexadecimal digit `d`, upper case.
fn hex_digit_str(d: u8) -> (s: &'static str)
    requires
        d < 16,
    ensures
        s@ == seq![hex_digit(d as int)],
{
    proof {
        reveal_strlit("0"); reveal_strlit("1"); reveal_strlit("2"); reveal_strlit("3");
        reveal_strlit("4"); reveal_strlit("5"); reveal_strlit("6"); reveal_strlit("7");
        reveal_strlit("8"); reveal_strlit("9"); reveal_strlit("A"); reveal_strlit("B");
        reveal_strlit("C"); reveal_strlit("D"); reveal_strlit("E"); reveal_strlit("F");
    }
    let s = match d {
        0 => "0",
        1 => "1",
        2 => "2",
        3 => "3",
        4 => "4",
        5 => "5",
        6 => "6",
        7 => "7",
        8 => "8",
        9 => "9",
        10 => "A",
        11 => "B",
        12 => "C",
        13 => "D",
        14 => "E",
        _ => "F",
    };
    assert(s@ =~= seq![hex_digit(d as int)]);
    s
}

/// A reference to a piece of content: the BLAKE2b-512 digest of its bytes.
#[derive(Hash, Eq, PartialEq, Copy, Clone, Debug)]
pub struct PieceRef {
    blake2b_64: [u8; 64],
}

impl View for PieceRef {
    type V = Seq<u8>;

    closed spec fn view(&self) -> Seq<u8> {
        self.blake2b_64@
    }
}

/// Error of `PieceRef::from_bytes`: the byte string did not have the length of a digest.
#[derive(Debug, Clone, Copy, PartialEq, Eq)]
pub struct InvalidHashLength {
    pub len: usize,
}

/// Every piece reference holds `HASH_BYTES` bytes, so `PieceRef::from_bytes` accepts
/// what `PieceRef::to_vec` returns, and gives back the same reference.
pub proof fn lemma_piece_ref_len(p: PieceRef)
    ensures
        p@.len() == HASH_BYTES,
{
}

/// The number whose big-endian bytes are the first eight bytes of `d`: what sorts
/// references into the buckets of a table.
pub open spec fn bucket_of(d: Seq<u8>) -> u64 {
    (d[0] as int * 0x0100_0000_0000_0000 + d[1] as int * 0x0001_0000_0000_0000
        + d[2] as int * 0x0000_0100_0000_0000 + d[3] as int * 0x0000_0001_0000_0000
        + d[4] as int * 0x0000_0000_0100_0000 + d[5] as int * 0x0000_0000_0001_0000
        + d[6] as int * 0x0000_0000_0000_0100 + d[7] as int) as u64
}

impl PieceRef {
    /// The first eight bytes of the digest, read as a big-endian number.
    pub fn bucket(&self) -> (b: u64)
        ensures
            b == bucket_of(self@),
    {
        let d = &self.blake2b_64;
        (d[0] as u64) * 0x0100_0000_0000_0000 + (d[1] as u64) * 0x0001_0000_0000_0000
            + (d[2] as u64) * 0x0000_0100_0000_0000 + (d[3] as u64) * 0x0000_0001_0000_0000
            + (d[4] as u64) * 0x0000_0000_0100_0000 + (d[5] as u64) * 0x0000_0000_0001_0000
            + (d[6] as u64) * 0x0000_0000_0000_0100 + (d[7] as u64)
    }

    /// The reference of the piece whose content is `buf`.
    pub fn for_buffer(buf: &[u8]) -> (r: PieceRef)
        ensures
            r@ == blake2b_512(buf@),
    {
        PieceRef { blake2b_64: blake2b_digest(buf) }
    }

    /// Whether `self` and `other` name the same digest.
    pub fn same_as(&self, other: &PieceRef) -> (eq: bool)
        ensures
            eq == (self@ == other@),
    {
        let mut i: usize = 0;
        while i < HASH_BYTES
            invariant
                0 <= i <= HASH_BYTES,
                self@.len() == HASH_BYTES,
                other@.len() == HASH_BYTES,
                forall|j: int| 0 <= j < i ==> self@[j] == other@[j],
            decreases HASH_BYTES - i,
        {
            if self.blake2b_64[i] != other.blake2b_64[i] {
                return false;
            }
            i = i + 1;
        }
        assert(self@ =~= other@);
        true
    }

    /// Whether `buf` is the content that `self` refers to.
    pub fn verify(&self, buf: &[u8]) -> (ok: bool)
        ensures
            ok == (self@ == blake2b_512(buf@)),
    {
        let actual = Self::for_buffer(buf);
        self.same_as(&actual)
    }

    /// The digest bytes.
    pub fn to_vec(&self) -> (v: Vec<u8>)
        ensures
            v@ == self@,
    {
        let mut v: Vec<u8> = Vec::new();
        let mut i: usize = 0;
        while i < HASH_BYTES
            invariant
                0 <= i <= HASH_BYTES,
                self@.len() == HASH_BYTES,
                v@ == self@.subrange(0, i as int),
            decreases HASH_BYTES - i,
        {
            v.push(self.blake2b_64[i]);
            i = i + 1;
            assert(v@ =~= self@.subrange(0, i as int));
        }
        assert(self@.subrange(0, HASH_BYTES as int) =~= self@);
        v
    }

    /// The digest in upper-case hexadecimal, as the reference is shown in messages.
    pub fn to_hex(&self) -> (s: String)
        ensures
            s@ == hex_upper(self@),
            s@.len() == 2 * HASH_BYTES,
            forall|i: int| 0 <= i < HASH_BYTES ==> {
                &&& #[trigger] s@[2 * i] == "0123456789ABCDEF"@[self@[i] as int / 16]
                &&& s@[2 * i + 1] == "0123456789ABCDEF"@[self@[i] as int % 16]
            },
    {
        proof { lemma_hex_upper(self@); }
        let mut out = String::new();
        let mut i: usize = 0;
        while i < HASH_BYTES
            invariant
                0 <= i <= HASH_BYTES,
                self@.len() == HASH_BYTES,
                out@ == hex_upper(self@.subrange(0, i as int)),
            decreases HASH_BYTES - i,
        {
            let b = self.blake2b_64[i];
            let ghost before = out@;
            out.append(hex_digit_str(b / 16));
            out.append(hex_digit_str(b % 16));
            proof {
                let sub = self@.subrange(0, i + 1);
                assert(sub.drop_last() =~= self@.subrange(0, i as int));
                assert(sub.last() == b);
                assert(out@ =~= before + seq![hex_digit(b as int / 16), hex_digit(b as int % 16)]);
            }
            i = i + 1;
        }
        assert(self@.subrange(0, HASH_BYTES as int) =~= self@);
        out
    }

    /// The reference whose digest bytes are `buf`; refused unless `buf`
    /// holds exactly `HASH_BYTES` bytes.
    pub fn from_bytes(buf: &[u8]) -> (r: Result<PieceRef, InvalidHashLength>)
        ensures
            buf@.len() == HASH_BYTES ==> (r matches Ok(p) && p@ == buf@),
            buf@.len() != HASH_BYTES ==> r == Err::<PieceRef, _>(InvalidHashLength { len: buf@.len() as usize }),
    {
        if buf.len() != HASH_BYTES {
            return Err(InvalidHashLength { len: buf.len() });
        }
        let mut arr = [0u8; 64];
        let mut i: usize = 0;
        while i < HASH_BYTES
            invariant
                0 <= i <= HASH_BYTES,
                buf@.len() == HASH_BYTES,
                arr@.len() == HASH_BYTES,
                forall|j: int| 0 <= j < i ==> arr@[j] == buf@[j],
            decreases HASH_BYTES - i,
        {
            arr[i] = buf[i];
            i = i + 1;
        }
        assert(arr@ =~= buf@);
        Ok(PieceRef { blake2b_64: arr })
    }
}

} // verus!
