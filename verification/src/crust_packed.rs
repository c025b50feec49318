//! The archive container: a fixed magic identifier, a file count, and the
//! concatenated records of every packed entry.

use vstd::prelude::*;
use vstd::bytes::*;
use vstd::slice::*;

use crate::crust_file::{CrustFile, CrustFileView, EntryError, spec_entry_encode, spec_entry_decode, lemma_entry_decode_ok, lemma_entry_round_trip, lemma_entry_truncated};

verus! {

/// The five ASCII bytes `"CRuST"` that open every archive.
pub open spec fn spec_magic() -> Seq<u8> {
    seq![0x43u8, 0x52u8, 0x75u8, 0x53u8, 0x54u8]
}

/// A packed archive: the entry count and the entries, in the order in which
/// they were collected.
#[derive(Debug)]
pub struct CrustPacked {
    pub file_count: u32,
    pub files: Vec<CrustFile>,
}

/// The mathematical value of a [`CrustPacked`].
#[verifier::ext_equal]
pub struct CrustPackedView {
    pub file_count: u32,
    pub files: Seq<CrustFileView>,
}

impl View for CrustPacked {
    type V = CrustPackedView;

    open spec fn view(&self) -> CrustPackedView {
        CrustPackedView {
            file_count: self.file_count,
            files: Seq::new(self.files@.len(), |i: int| self.files@[i]@),
        }
    }
}

impl CrustPackedView {
    /// The stored count equals the number of entries, and every entry is
    /// itself well-formed.
    pub open spec fn wf(self) -> bool {
        &&& self.file_count as int == self.files.len()
        &&& forall|i: int| 0 <= i < self.files.len() ==> (#[trigger] self.files[i]).wf()
    }
}

/// The concatenation of the binary records of the given entries, in order.
pub open spec fn spec_entries_encode(files: Seq<CrustFileView>) -> Seq<u8>
    decreases files.len(),
{
    if files.len() == 0 {
        Seq::empty()
    } else {
        spec_entry_encode(files.first()) + spec_entries_encode(files.drop_first())
    }
}

/// The exact byte sequence that encodes a whole archive: magic identifier,
/// file count (little-endian), then every entry record in order.
pub open spec fn spec_archive_encode(v: CrustPackedView) -> Seq<u8> {
    spec_magic() + spec_u32_to_le_bytes(v.file_count) + spec_entries_encode(v.files)
}

/// Why a byte buffer failed to decode as an archive.
#[derive(Debug, Clone, Copy, PartialEq, Eq)]
pub enum ArchiveError {
    /// Fewer than the 9 header bytes are present.
    TooShort,
    /// The first five bytes are not the magic identifier.
    BadMagic,
    /// An entry record failed to decode; carries the byte offset at which
    /// that record started and the entry-level cause.
    CorruptEntry(usize, EntryError),
}

/// Decoding `n` consecutive entry records from `data`, starting at
/// `offset`: either all decoded entries in order, or the offset of the
/// record that failed together with the entry-level cause.
pub open spec fn spec_entries_decode(data: Seq<u8>, offset: int, n: nat) -> Result<
    Seq<CrustFileView>,
    (int, EntryError),
>
    decreases n,
{
    if n == 0 {
        Ok(Seq::empty())
    } else {
        match spec_entry_decode(data.subrange(offset, data.len() as int)) {
            Err(e) => Err((offset, e)),
            Ok((v, used)) => match spec_entries_decode(data, offset + used, (n - 1) as nat) {
                Ok(rest) => Ok(seq![v] + rest),
                Err(e) => Err(e),
            },
        }
    }
}

/// Decoding a whole archive: the header checks, then exactly `file_count`
/// entry records starting at offset 9.  Bytes after the last record are
/// ignored.
pub open spec fn spec_archive_decode(data: Seq<u8>) -> Result<CrustPackedView, ArchiveError> {
    if data.len() < 9 {
        Err(ArchiveError::TooShort)
    } else if data.subrange(0, 5) != spec_magic() {
        Err(ArchiveError::BadMagic)
    } else {
        let file_count = spec_u32_from_le_bytes(data.subrange(5, 9));
        match spec_entries_decode(data, 9, file_count as nat) {
            Ok(files) => Ok(CrustPackedView { file_count, files }),
            Err((offset, e)) => Err(ArchiveError::CorruptEntry(offset as usize, e)),
        }
    }
}

/// Appending one entry to a sequence appends its record to the encoding.
proof fn lemma_entries_encode_snoc(files: Seq<CrustFileView>, v: CrustFileView)
    ensures
        spec_entries_encode(files.push(v)) == spec_entries_encode(files) + spec_entry_encode(v),
    decreases files.len(),
{
    if files.len() == 0 {
        assert(files.push(v).first() == v);
        assert(files.push(v).drop_first() =~= Seq::<CrustFileView>::empty());
        assert(spec_entries_encode(files.push(v).drop_first()) == Seq::<u8>::empty());
        assert(spec_entries_encode(files.push(v)) == spec_entry_encode(v) + Seq::<u8>::empty());
        assert(spec_entry_encode(v) + Seq::<u8>::empty() =~= Seq::<u8>::empty()
            + spec_entry_encode(v));
        assert(spec_entries_encode(files) == Seq::<u8>::empty());
    } else {
        assert(files.push(v).first() == files.first());
        assert(files.push(v).drop_first() =~= files.drop_first().push(v));
        lemma_entries_encode_snoc(files.drop_first(), v);
        assert(spec_entries_encode(files.push(v)) == spec_entry_encode(files.first())
            + (spec_entries_encode(files.drop_first()) + spec_entry_encode(v)));
        assert(spec_entry_encode(files.first()) + (spec_entries_encode(files.drop_first())
            + spec_entry_encode(v)) =~= (spec_entry_encode(files.first())
            + spec_entries_encode(files.drop_first())) + spec_entry_encode(v));
    }
}

impl CrustPacked {
    /// Wraps an already-built list of entries into an archive, deriving the
    /// stored count from the list's length.
    pub fn from_files(files: Vec<CrustFile>) -> (r: CrustPacked)
        requires
            files@.len() <= 0xFFFF_FFFF,
        ensures
            r@.file_count as int == files@.len(),
            r@.files == Seq::new(files@.len(), |i: int| files@[i]@),
    {
        let file_count: u32 = files.len() as u32;
        CrustPacked { file_count, files }
    }

    /// Decodes a whole archive from bytes.
    ///
    /// The result is exactly what [`spec_archive_decode`] says: `TooShort`
    /// when fewer than 9 bytes are present, `BadMagic` when the first five
    /// bytes are not the magic identifier, `CorruptEntry` carrying the
    /// offset and cause of the first entry record that fails, and
    /// otherwise the archive with exactly `file_count` decoded entries.
    /// Bytes after the last record are ignored.
    pub fn from_bytes(data: &[u8]) -> (r: Result<CrustPacked, ArchiveError>)
        ensures
            (match r {
                Ok(a) => {
                    &&& spec_archive_decode(data@) == Ok::<CrustPackedView, ArchiveError>(a@)
                    &&& a@.wf()
                },
                Err(err) => spec_archive_decode(data@) == Err::<CrustPackedView, ArchiveError>(
                    err,
                ),
            }),
    {
        let len: usize = data.len();
        if len < 9 {
            return Err(ArchiveError::TooShort);
        }
        let b0 = *slice_index_get(data, 0);
        let b1 = *slice_index_get(data, 1);
        let b2 = *slice_index_get(data, 2);
        let b3 = *slice_index_get(data, 3);
        let b4 = *slice_index_get(data, 4);
        if b0 != 0x43 || b1 != 0x52 || b2 != 0x75 || b3 != 0x53 || b4 != 0x54 {
            proof {
                assert(data@.subrange(0, 5)[0] == b0);
                assert(data@.subrange(0, 5)[1] == b1);
                assert(data@.subrange(0, 5)[2] == b2);
                assert(data@.subrange(0, 5)[3] == b3);
                assert(data@.subrange(0, 5)[4] == b4);
                assert(data@.subrange(0, 5) != spec_magic());
            }
            return Err(ArchiveError::BadMagic);
        }
        proof {
            assert(data@.subrange(0, 5) =~= spec_magic());
        }
        let file_count: u32 = u32_from_le_bytes(slice_subrange(data, 5, 9));
        let mut files: Vec<CrustFile> = Vec::new();
        let mut i: usize = 9;
        let mut done: u32 = 0;
        while done < file_count
            invariant
                9 <= i <= len == data@.len(),
                done <= file_count,
                files@.len() == done as int,
                file_count == spec_u32_from_le_bytes(data@.subrange(5, 9)),
                data@.subrange(0, 5) == spec_magic(),
                forall|t: int| 0 <= t < files@.len() ==> (#[trigger] files@[t]@).wf(),
                ({
                    let views = Seq::new(files@.len(), |t: int| files@[t]@);
                    let full = spec_entries_decode(data@, 9, file_count as nat);
                    match spec_entries_decode(data@, i as int, (file_count - done) as nat) {
                        Ok(tail) => full == Ok::<Seq<CrustFileView>, (int, EntryError)>(
                            views + tail,
                        ),
                        Err(e) => full == Err::<Seq<CrustFileView>, (int, EntryError)>(e),
                    }
                }),
            decreases file_count - done,
        {
            let ghost views = Seq::new(files@.len(), |t: int| files@[t]@);
            let ghost n_left = (file_count - done) as nat;
            match CrustFile::from_bytes(slice_subrange(data, i, len)) {
                Err(e) => {
                    proof {
                        assert(spec_entries_decode(data@, i as int, n_left) == Err::<
                            Seq<CrustFileView>,
                            (int, EntryError),
                        >((i as int, e)));
                    }
                    return Err(ArchiveError::CorruptEntry(i, e));
                },
                Ok((entry, used)) => {
                    proof {
                        lemma_entry_decode_ok(data@.subrange(i as int, len as int));
                        let rest = spec_entries_decode(
                            data@,
                            i as int + used as int,
                            (n_left - 1) as nat,
                        );
                        if rest is Ok {
                            assert(spec_entries_decode(data@, i as int, n_left) == Ok::<
                                Seq<CrustFileView>,
                                (int, EntryError),
                            >(seq![entry@] + rest->Ok_0));
                            assert(views + (seq![entry@] + rest->Ok_0) =~= views.push(entry@)
                                + rest->Ok_0);
                            assert(Seq::new(files@.len() + 1, |t: int| files@.push(entry)[t]@)
                                =~= views.push(entry@));
                        } else {
                            assert(Seq::new(files@.len() + 1, |t: int| files@.push(entry)[t]@)
                                =~= views.push(entry@));
                        }
                    }
                    files.push(entry);
                    i += used;
                    done += 1;
                },
            }
        }
        proof {
            let views = Seq::new(files@.len(), |t: int| files@[t]@);
            assert(spec_entries_decode(data@, i as int, 0) == Ok::<
                Seq<CrustFileView>,
                (int, EntryError),
            >(Seq::empty()));
            assert(views + Seq::<CrustFileView>::empty() =~= views);
        }
        let r = CrustPacked { file_count, files };
        proof {
            assert(spec_archive_decode(data@) == Ok::<CrustPackedView, ArchiveError>(r@));
        }
        Ok(r)
    }

    /// A fresh copy of the whole archive's binary form: the magic
    /// identifier, the stored file count, then every entry's record.
    pub fn as_bytes(&self) -> (r: Vec<u8>)
        ensures
            r@ == spec_archive_encode(self@),
    {
        let mut buf: Vec<u8> = Vec::new();
        buf.push(0x43);
        buf.push(0x52);
        buf.push(0x75);
        buf.push(0x53);
        buf.push(0x54);
        let mut count_bytes = u32_to_le_bytes(self.file_count);
        buf.append(&mut count_bytes);
        proof {
            assert(self@.files.subrange(0, 0) =~= Seq::<CrustFileView>::empty());
            assert(buf@ =~= spec_magic() + spec_u32_to_le_bytes(self.file_count)
                + spec_entries_encode(self@.files.subrange(0, 0)));
        }
        let k_max: usize = self.files.len();
        let mut k: usize = 0;
        while k < k_max
            invariant
                k <= k_max == self.files@.len(),
                buf@ == spec_magic() + spec_u32_to_le_bytes(self.file_count)
                    + spec_entries_encode(self@.files.subrange(0, k as int)),
            decreases k_max - k,
        {
            let mut entry_bytes = self.files[k].as_bytes();
            buf.append(&mut entry_bytes);
            proof {
                lemma_entries_encode_snoc(
                    self@.files.subrange(0, k as int),
                    self@.files[k as int],
                );
                assert(self@.files.subrange(0, k as int + 1) =~= self@.files.subrange(
                    0,
                    k as int,
                ).push(self@.files[k as int]));
            }
            k += 1;
        }
        proof {
            assert(self@.files.subrange(0, self@.files.len() as int) =~= self@.files);
        }
        buf
    }
}

proof fn lemma_entries_decode_prefix(files: Seq<CrustFileView>, prefix: Seq<u8>, rest: Seq<u8>)
    requires
        forall|i: int| 0 <= i < files.len() ==> (#[trigger] files[i]).wf(),
    ensures
        spec_entries_decode(
            prefix + spec_entries_encode(files) + rest,
            prefix.len() as int,
            files.len(),
        ) == Ok::<Seq<CrustFileView>, (int, EntryError)>(files),
    decreases files.len(),
{
    let data = prefix + spec_entries_encode(files) + rest;
    if files.len() == 0 {
        assert(files =~= Seq::<CrustFileView>::empty());
    } else {
        let f0 = files.first();
        let tail = files.drop_first();
        let e0 = spec_entry_encode(f0);
        lemma_entry_round_trip(f0, spec_entries_encode(tail) + rest);
        assert(data.subrange(prefix.len() as int, data.len() as int) =~= e0 + (spec_entries_encode(
            tail,
        ) + rest));
        lemma_entries_decode_prefix(tail, prefix + e0, rest);
        assert((prefix + e0) + spec_entries_encode(tail) + rest =~= data);
        assert(seq![f0] + tail =~= files);
    }
}

/// Round trip: decoding the encoding of any well-formed archive yields that
/// archive back, whatever bytes follow the final entry's record.
pub proof fn lemma_archive_round_trip(v: CrustPackedView, rest: Seq<u8>)
    requires
        v.wf(),
    ensures
        spec_archive_decode(spec_archive_encode(v) + rest) == Ok::<CrustPackedView, ArchiveError>(
            v,
        ),
{
    lemma_auto_spec_u32_to_from_le_bytes();
    let header = spec_magic() + spec_u32_to_le_bytes(v.file_count);
    let d = spec_archive_encode(v) + rest;
    assert(d.subrange(0, 5) =~= spec_magic());
    assert(d.subrange(5, 9) =~= spec_u32_to_le_bytes(v.file_count));
    lemma_entries_decode_prefix(v.files, header, rest);
    assert(header + spec_entries_encode(v.files) + rest =~= d);
    assert(spec_archive_decode(d)->Ok_0 =~= v);
}

proof fn lemma_entries_decode_truncated(files: Seq<CrustFileView>, prefix: Seq<u8>, n: int)
    requires
        forall|i: int| 0 <= i < files.len() ==> (#[trigger] files[i]).wf(),
        prefix.len() <= n < prefix.len() + spec_entries_encode(files).len(),
    ensures
        spec_entries_decode(
            (prefix + spec_entries_encode(files)).subrange(0, n),
            prefix.len() as int,
            files.len(),
        ) is Err,
    decreases files.len(),
{
    let d = (prefix + spec_entries_encode(files)).subrange(0, n);
    let f0 = files.first();
    let tail = files.drop_first();
    let e0 = spec_entry_encode(f0);
    let e0len = e0.len() as int;
    if n < prefix.len() + e0len {
        lemma_entry_truncated(f0, n - prefix.len());
        assert(d.subrange(prefix.len() as int, n) =~= e0.subrange(0, n - prefix.len()));
    } else {
        let suffix = spec_entries_encode(tail).subrange(0, n - prefix.len() - e0len);
        lemma_entry_round_trip(f0, suffix);
        assert(d.subrange(prefix.len() as int, n) =~= e0 + suffix);
        lemma_entries_decode_truncated(tail, prefix + e0, n);
        assert((prefix + e0) + spec_entries_encode(tail) =~= prefix + spec_entries_encode(files));
    }
}

/// Corruption by truncation: cutting the encoding of a well-formed archive
/// anywhere before its end leaves bytes on which decoding always fails,
/// never a successful decode of wrong data.
pub proof fn lemma_archive_truncated(v: CrustPackedView, n: int)
    requires
        v.wf(),
        0 <= n < spec_archive_encode(v).len(),
    ensures
        spec_archive_decode(spec_archive_encode(v).subrange(0, n)) is Err,
{
    let full = spec_archive_encode(v);
    let d = full.subrange(0, n);
    if n >= 9 {
        lemma_auto_spec_u32_to_from_le_bytes();
        let header = spec_magic() + spec_u32_to_le_bytes(v.file_count);
        assert(d.subrange(0, 5) =~= spec_magic());
        assert(d.subrange(5, 9) =~= spec_u32_to_le_bytes(v.file_count));
        lemma_entries_decode_truncated(v.files, header, n);
        assert(header + spec_entries_encode(v.files) =~= full);
    }
}

/// Magic check: altering any one of the first five bytes of an encoded
/// archive makes decoding fail with `BadMagic`.
pub proof fn lemma_archive_bad_magic(v: CrustPackedView, i: int, b: u8)
    requires
        0 <= i < 5,
        b != spec_archive_encode(v)[i],
    ensures
        spec_archive_decode(spec_archive_encode(v).update(i, b)) == Err::<
            CrustPackedView,
            ArchiveError,
        >(ArchiveError::BadMagic),
{
    lemma_auto_spec_u32_to_from_le_bytes();
    let d = spec_archive_encode(v).update(i, b);
    assert(spec_archive_encode(v)[i] == spec_magic()[i]);
    assert(d.subrange(0, 5)[i] == b);
    assert(d.subrange(0, 5) != spec_magic());
}

/// Boundary: an archive without entries encodes to exactly the 9-byte
/// header, and that header decodes back to the empty archive.
pub proof fn lemma_empty_archive(v: CrustPackedView)
    requires
        v.wf(),
        v.file_count == 0,
    ensures
        spec_archive_encode(v).len() == 9,
        spec_archive_decode(spec_archive_encode(v)) == Ok::<CrustPackedView, ArchiveError>(v),
{
    lemma_auto_spec_u32_to_from_le_bytes();
    assert(v.files =~= Seq::<CrustFileView>::empty());
    lemma_archive_round_trip(v, Seq::empty());
    assert(spec_archive_encode(v) + Seq::<u8>::empty() =~= spec_archive_encode(v));
}

} // verus!

