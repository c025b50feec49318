//! A single packed file: its name, its extension and its raw content,
//! together with the codec that turns it into a length-prefixed binary
//! record and back.
//!
//! Record layout, in order: `extension_len` (1 byte), `name_len` (2 bytes,
//! little-endian), `data_len` (4 bytes, little-endian), then the filename
//! bytes (UTF-8), the extension bytes (UTF-8) and the raw file content.
//! The whole record is `7 + extension_len + name_len + data_len` bytes long.

use vstd::prelude::*;
use vstd::bytes::*;
use vstd::utf8::*;
use vstd::slice::*;
use vstd::string::StrSliceExecFns;

verus! {

/// Why a byte buffer failed to decode as an entry record.
#[derive(Debug, Clone, Copy, PartialEq, Eq)]
pub enum EntryError {
    /// Fewer than the 7 fixed header bytes remain.
    TruncatedHeader,
    /// The buffer holds fewer bytes than the header's three lengths declare.
    TruncatedBody,
    /// The filename or the extension bytes are not valid UTF-8.
    InvalidUtf8,
}

/// One packed file.
///
/// The three length fields mirror the record header; a well-formed entry
/// (see [`CrustFileView::wf`]) keeps each of them equal to the byte length
/// of the variable-length field it describes.
#[derive(Debug)]
pub struct CrustFile {
    pub extension_len: u8,
    pub name_len: u16,
    pub data_len: u32,
    pub filename: String,
    pub extension: String,
    pub file_data: Vec<u8>,
}

/// The mathematical value of a [`CrustFile`]: its strings as character
/// sequences and its content as a byte sequence.
#[verifier::ext_equal]
pub struct CrustFileView {
    pub extension_len: u8,
    pub name_len: u16,
    pub data_len: u32,
    pub filename: Seq<char>,
    pub extension: Seq<char>,
    pub file_data: Seq<u8>,
}

impl View for CrustFile {
    type V = CrustFileView;

    open spec fn view(&self) -> CrustFileView {
        CrustFileView {
            extension_len: self.extension_len,
            name_len: self.name_len,
            data_len: self.data_len,
            filename: self.filename@,
            extension: self.extension@,
            file_data: self.file_data@,
        }
    }
}

impl CrustFileView {
    /// Each stored length equals the byte length of the field it describes.
    pub open spec fn wf(self) -> bool {
        &&& encode_utf8(self.filename).len() == self.name_len as int
        &&& encode_utf8(self.extension).len() == self.extension_len as int
        &&& self.file_data.len() == self.data_len as int
    }
}

/// The exact byte sequence that encodes one entry.
pub open spec fn spec_entry_encode(v: CrustFileView) -> Seq<u8> {
    seq![v.extension_len] + spec_u16_to_le_bytes(v.name_len) + spec_u32_to_le_bytes(v.data_len)
        + encode_utf8(v.filename) + encode_utf8(v.extension) + v.file_data
}

/// Decoding one entry record from the front of `data`: either the decoded
/// entry together with how many bytes the record occupied, or the error
/// that the buffer forces.
pub open spec fn spec_entry_decode(data: Seq<u8>) -> Result<(CrustFileView, int), EntryError> {
    if data.len() < 7 {
        Err(EntryError::TruncatedHeader)
    } else {
        let extension_len = data[0];
        let name_len = spec_u16_from_le_bytes(data.subrange(1, 3));
        let data_len = spec_u32_from_le_bytes(data.subrange(3, 7));
        let total = 7 + extension_len as int + name_len as int + data_len as int;
        if data.len() < total {
            Err(EntryError::TruncatedBody)
        } else {
            let name_end = 7 + name_len as int;
            let ext_end = name_end + extension_len as int;
            let name_bytes = data.subrange(7, name_end);
            let ext_bytes = data.subrange(name_end, ext_end);
            if !valid_utf8(name_bytes) || !valid_utf8(ext_bytes) {
                Err(EntryError::InvalidUtf8)
            } else {
                Ok((
                    CrustFileView {
                        extension_len,
                        name_len,
                        data_len,
                        filename: decode_utf8(name_bytes),
                        extension: decode_utf8(ext_bytes),
                        file_data: data.subrange(ext_end, total),
                    },
                    total,
                ))
            }
        }
    }
}

/// A decoded entry is well-formed, and the consumed count it reports is the
/// record length the header declares, which fits inside the buffer.
pub proof fn lemma_entry_decode_ok(data: Seq<u8>)
    requires
        spec_entry_decode(data) is Ok,
    ensures
        ({
            let (v, used) = spec_entry_decode(data)->Ok_0;
            &&& v.wf()
            &&& used == 7 + v.extension_len as int + v.name_len as int + v.data_len as int
            &&& 7 <= used <= data.len()
        }),
{
    let (v, used) = spec_entry_decode(data)->Ok_0;
    let name_end = 7 + v.name_len as int;
    let ext_end = name_end + v.extension_len as int;
    decode_utf8_encode_utf8(data.subrange(7, name_end));
    decode_utf8_encode_utf8(data.subrange(name_end, ext_end));
}

/// True of the two characters that separate path segments.
pub open spec fn is_path_separator(c: char) -> bool {
    c == '/' || c == '\\'
}

/// The final segment of a path: the characters after the last separator,
/// or the whole path when it holds none.
pub open spec fn spec_base_name(path: Seq<char>) -> Seq<char>
    decreases path.len(),
{
    if path.len() == 0 {
        path
    } else if is_path_separator(path.last()) {
        Seq::empty()
    } else {
        spec_base_name(path.drop_last()).push(path.last())
    }
}

/// The characters before the first `'.'`, or all of `s` when it holds none.
pub open spec fn spec_until_dot(s: Seq<char>) -> Seq<char>
    decreases s.len(),
{
    if s.len() == 0 {
        s
    } else if s.first() == '.' {
        Seq::empty()
    } else {
        seq![s.first()] + spec_until_dot(s.drop_first())
    }
}

/// The extension of a file name: the characters between the first `'.'`
/// and the next `'.'` (or the end), or nothing when the name holds no dot.
pub open spec fn spec_extension(name: Seq<char>) -> Option<Seq<char>>
    decreases name.len(),
{
    if name.len() == 0 {
        None
    } else if name.first() == '.' {
        Some(spec_until_dot(name.drop_first()))
    } else {
        spec_extension(name.drop_first())
    }
}

proof fn lemma_base_name_suffix(p: Seq<char>, i: int)
    requires
        0 <= i <= p.len(),
        forall|j: int| i <= j < p.len() ==> !is_path_separator(p[j]),
        i > 0 ==> is_path_separator(p[i - 1]),
    ensures
        spec_base_name(p) == p.subrange(i, p.len() as int),
    decreases p.len(),
{
    if i == p.len() {
        if i == 0 {
            assert(p.subrange(0, 0) =~= p);
        } else {
            assert(is_path_separator(p.last()));
            assert(p.subrange(i, p.len() as int) =~= Seq::<char>::empty());
        }
    } else {
        let q = p.drop_last();
        lemma_base_name_suffix(q, i);
        assert(p.subrange(i, p.len() as int) =~= q.subrange(i, q.len() as int).push(p.last()));
    }
}

proof fn lemma_until_dot_prefix(s: Seq<char>, e: int)
    requires
        0 <= e <= s.len(),
        forall|j: int| 0 <= j < e ==> s[j] != '.',
        e < s.len() ==> s[e] == '.',
    ensures
        spec_until_dot(s) == s.subrange(0, e),
    decreases s.len(),
{
    if s.len() == 0 {
        assert(s.subrange(0, 0) =~= s);
    } else if s.first() == '.' {
        assert(e == 0);
        assert(s.subrange(0, 0) =~= Seq::<char>::empty());
    } else {
        let t = s.drop_first();
        lemma_until_dot_prefix(t, e - 1);
        assert(s.subrange(0, e) =~= seq![s.first()] + t.subrange(0, e - 1));
    }
}

proof fn lemma_extension_at(s: Seq<char>, j: int)
    requires
        0 <= j < s.len(),
        s[j] == '.',
        forall|k: int| 0 <= k < j ==> s[k] != '.',
    ensures
        spec_extension(s) == Some(spec_until_dot(s.subrange(j + 1, s.len() as int))),
    decreases j,
{
    if j == 0 {
        assert(s.drop_first() =~= s.subrange(1, s.len() as int));
    } else {
        let t = s.drop_first();
        lemma_extension_at(t, j - 1);
        assert(t.subrange(j, t.len() as int) =~= s.subrange(j + 1, s.len() as int));
    }
}

proof fn lemma_no_extension(s: Seq<char>)
    requires
        forall|k: int| 0 <= k < s.len() ==> s[k] != '.',
    ensures
        spec_extension(s) is None,
    decreases s.len(),
{
    if s.len() > 0 {
        lemma_no_extension(s.drop_first());
    }
}

/// Why a file name and its content could not be turned into an entry.
#[derive(Debug, Clone, Copy, PartialEq, Eq)]
pub enum BuildError {
    /// The base name holds no `'.'`, so no extension can be derived.
    NoExtension,
    /// The base name's UTF-8 form is longer than 65535 bytes.
    NameTooLong,
    /// The extension's UTF-8 form is longer than 255 bytes.
    ExtensionTooLong,
    /// The content is longer than 4294967295 bytes.
    DataTooLong,
}

/// Building an entry from a path and the file's content: the base name is
/// the path's final segment, the extension is the name's first-dot
/// segment, and each header length must fit its fixed-width field.
pub open spec fn spec_entry_from_path(path: Seq<char>, data: Seq<u8>) -> Result<
    CrustFileView,
    BuildError,
> {
    let name = spec_base_name(path);
    match spec_extension(name) {
        None => Err(BuildError::NoExtension),
        Some(ext) => {
            if encode_utf8(name).len() > 0xFFFF {
                Err(BuildError::NameTooLong)
            } else if encode_utf8(ext).len() > 0xFF {
                Err(BuildError::ExtensionTooLong)
            } else if data.len() > 0xFFFF_FFFF {
                Err(BuildError::DataTooLong)
            } else {
                Ok(
                    CrustFileView {
                        extension_len: encode_utf8(ext).len() as u8,
                        name_len: encode_utf8(name).len() as u16,
                        data_len: data.len() as u32,
                        filename: name,
                        extension: ext,
                        file_data: data,
                    },
                )
            }
        },
    }
}

/// Round trip: decoding the encoding of any well-formed entry yields that
/// entry back and consumes exactly the encoding's length, whatever bytes
/// follow the record.
pub proof fn lemma_entry_round_trip(v: CrustFileView, rest: Seq<u8>)
    requires
        v.wf(),
    ensures
        spec_entry_decode(spec_entry_encode(v) + rest) == Ok::<(CrustFileView, int), EntryError>(
            (v, spec_entry_encode(v).len() as int),
        ),
{
    lemma_auto_spec_u16_to_from_le_bytes();
    lemma_auto_spec_u32_to_from_le_bytes();
    let d = spec_entry_encode(v) + rest;
    let nl = v.name_len as int;
    let el = v.extension_len as int;
    let dl = v.data_len as int;
    let total = 7 + el + nl + dl;
    assert(spec_entry_encode(v).len() == total);
    assert(d[0] == v.extension_len);
    assert(d.subrange(1, 3) =~= spec_u16_to_le_bytes(v.name_len));
    assert(d.subrange(3, 7) =~= spec_u32_to_le_bytes(v.data_len));
    assert(d.subrange(7, 7 + nl) =~= encode_utf8(v.filename));
    assert(d.subrange(7 + nl, 7 + nl + el) =~= encode_utf8(v.extension));
    assert(d.subrange(7 + nl + el, total) =~= v.file_data);
    encode_utf8_valid_utf8(v.filename);
    encode_utf8_valid_utf8(v.extension);
    encode_utf8_decode_utf8(v.filename);
    encode_utf8_decode_utf8(v.extension);
    assert(spec_entry_decode(d)->Ok_0.0 =~= v);
}

/// Corruption by truncation: cutting the encoding of a well-formed entry
/// anywhere before its end leaves bytes that no longer decode.
pub proof fn lemma_entry_truncated(v: CrustFileView, n: int)
    requires
        v.wf(),
        0 <= n < spec_entry_encode(v).len(),
    ensures
        spec_entry_decode(spec_entry_encode(v).subrange(0, n)) is Err,
{
    let full = spec_entry_encode(v);
    let d = full.subrange(0, n);
    if n >= 7 {
        lemma_auto_spec_u16_to_from_le_bytes();
        lemma_auto_spec_u32_to_from_le_bytes();
        let nl = v.name_len as int;
        let el = v.extension_len as int;
        let dl = v.data_len as int;
        assert(d[0] == v.extension_len);
        assert(d.subrange(1, 3) =~= spec_u16_to_le_bytes(v.name_len));
        assert(d.subrange(3, 7) =~= spec_u32_to_le_bytes(v.data_len));
        assert(d.len() < 7 + el + nl + dl);
    }
}

/// Relies on `std::str::from_utf8`: it succeeds exactly when the bytes are
/// valid UTF-8, and then the returned string reads back as those same bytes.
#[verifier::external_body]
fn utf8_to_string(bytes: &[u8]) -> (r: Option<String>)
    ensures
        r is Some <==> valid_utf8(bytes@),
        (r matches Some(s) ==> encode_utf8(s@) == bytes@),
{
    match std::str::from_utf8(bytes) {
        Ok(s) => Some(s.to_string()),
        Err(_) => None,
    }
}

impl CrustFile {
    /// Decodes one entry record from the front of `data`.
    ///
    /// On success the decoded entry comes back together with the number of
    /// bytes its record occupied, so that a caller can step to the next
    /// record without re-deriving the length.  Bytes past the record are
    /// ignored.  The result is exactly what [`spec_entry_decode`] says:
    /// `TruncatedHeader` when fewer than 7 bytes are present,
    /// `TruncatedBody` when the buffer is shorter than the header's lengths
    /// declare, `InvalidUtf8` when the name or extension bytes are not
    /// UTF-8, and `Ok` otherwise.
    pub fn from_bytes(data: &[u8]) -> (r: Result<(CrustFile, usize), EntryError>)
        ensures
            (match r {
                Ok((e, used)) => {
                    &&& spec_entry_decode(data@) == Ok::<(CrustFileView, int), EntryError>(
                        (e@, used as int),
                    )
                    &&& e@.wf()
                },
                Err(err) => spec_entry_decode(data@) == Err::<(CrustFileView, int), EntryError>(
                    err,
                ),
            }),
    {
        let len = data.len();
        if len < 7 {
            return Err(EntryError::TruncatedHeader);
        }
        let extension_len = *slice_index_get(data, 0);
        let name_len = u16_from_le_bytes(slice_subrange(data, 1, 3));
        let data_len = u32_from_le_bytes(slice_subrange(data, 3, 7));
        let el: usize = extension_len as usize;
        let nl: usize = name_len as usize;
        let rest = len - 7;
        if rest < nl + el || rest - (nl + el) < data_len as usize {
            return Err(EntryError::TruncatedBody);
        }
        let name_end: usize = 7 + nl;
        let ext_end: usize = name_end + el;
        let body_end: usize = ext_end + data_len as usize;
        let name_bytes = slice_subrange(data, 7, name_end);
        let filename = match utf8_to_string(name_bytes) {
            Some(s) => s,
            None => {
                return Err(EntryError::InvalidUtf8);
            },
        };
        let ext_bytes = slice_subrange(data, name_end, ext_end);
        let extension = match utf8_to_string(ext_bytes) {
            Some(s) => s,
            None => {
                return Err(EntryError::InvalidUtf8);
            },
        };
        let file_data = slice_to_vec(slice_subrange(data, ext_end, body_end));
        proof {
            encode_utf8_decode_utf8(filename@);
            encode_utf8_decode_utf8(extension@);
        }
        Ok((
            CrustFile { extension_len, name_len, data_len, filename, extension, file_data },
            body_end,
        ))
    }

    /// Builds an entry from a file's path and the file's raw content.
    ///
    /// The stored filename is the path's final segment; both `/` and `\`
    /// separate segments.  The stored extension is the part of the name
    /// between the first `'.'` and the next one or the end of the name.
    /// A name without any dot is rejected as `NoExtension` rather than
    /// given an empty extension, and a name, extension or content too
    /// long for its fixed-width header field is rejected rather than
    /// silently truncated.
    pub fn from_path_and_data(path: &str, data: Vec<u8>) -> (r: Result<CrustFile, BuildError>)
        ensures
            (match spec_entry_from_path(path@, data@) {
                Ok(v) => r matches Ok(e) && e@ == v && e@.wf(),
                Err(err) => r matches Err(got) && got == err,
            }),
    {
        let n: usize = path.unicode_len();
        let mut start: usize = 0;
        let mut i: usize = 0;
        while i < n
            invariant
                0 <= start <= i <= n,
                n == path@.len(),
                forall|j: int| start <= j < i ==> !is_path_separator(path@[j]),
                start > 0 ==> is_path_separator(path@[start - 1]),
            decreases n - i,
        {
            let c = path.get_char(i);
            if c == '/' || c == '\\' {
                start = i + 1;
            }
            i += 1;
        }
        let name = path.substring_char(start, n);
        proof {
            lemma_base_name_suffix(path@, start as int);
        }
        let m: usize = name.unicode_len();
        let mut dot: usize = m;
        let mut j: usize = 0;
        while j < m
            invariant
                0 <= j <= m,
                m == name@.len(),
                dot == m || (0 <= dot < j && name@[dot as int] == '.' && forall|k: int|
                    0 <= k < dot ==> name@[k] != '.'),
                dot == m ==> forall|k: int| 0 <= k < j ==> name@[k] != '.',
            decreases m - j,
        {
            if dot == m && name.get_char(j) == '.' {
                dot = j;
            }
            j += 1;
        }
        if dot == m {
            proof {
                lemma_no_extension(name@);
            }
            return Err(BuildError::NoExtension);
        }
        let mut end: usize = m;
        let mut k: usize = dot + 1;
        while k < m
            invariant
                dot + 1 <= k <= m,
                m == name@.len(),
                end == m || (dot < end < k && name@[end as int] == '.' && forall|t: int|
                    dot + 1 <= t < end ==> name@[t] != '.'),
                end == m ==> forall|t: int| dot + 1 <= t < k ==> name@[t] != '.',
            decreases m - k,
        {
            if end == m && name.get_char(k) == '.' {
                end = k;
            }
            k += 1;
        }
        let ext = name.substring_char(dot + 1, end);
        proof {
            lemma_extension_at(name@, dot as int);
            lemma_until_dot_prefix(
                name@.subrange(dot as int + 1, m as int),
                end as int - (dot as int + 1),
            );
            assert(name@.subrange(dot as int + 1, m as int).subrange(
                0,
                end as int - (dot as int + 1),
            ) =~= name@.subrange(dot as int + 1, end as int));
        }
        let name_bytes_len: usize = name.as_bytes().len();
        if name_bytes_len > 0xFFFF {
            return Err(BuildError::NameTooLong);
        }
        let ext_bytes_len: usize = ext.as_bytes().len();
        if ext_bytes_len > 0xFF {
            return Err(BuildError::ExtensionTooLong);
        }
        if data.len() > 0xFFFF_FFFF {
            return Err(BuildError::DataTooLong);
        }
        let data_len: u32 = data.len() as u32;
        Ok(
            CrustFile {
                extension_len: ext_bytes_len as u8,
                name_len: name_bytes_len as u16,
                data_len,
                filename: name.to_owned(),
                extension: ext.to_owned(),
                file_data: data,
            },
        )
    }

    /// A fresh copy of this entry's binary record.
    pub fn as_bytes(&self) -> (r: Vec<u8>)
        ensures
            r@ == spec_entry_encode(self@),
    {
        let mut buf: Vec<u8> = Vec::new();
        buf.push(self.extension_len);
        let mut name_len_bytes = u16_to_le_bytes(self.name_len);
        buf.append(&mut name_len_bytes);
        let mut data_len_bytes = u32_to_le_bytes(self.data_len);
        buf.append(&mut data_len_bytes);
        let mut filename_bytes = self.filename.as_str().as_bytes_vec();
        buf.append(&mut filename_bytes);
        let mut extension_bytes = self.extension.as_str().as_bytes_vec();
        buf.append(&mut extension_bytes);
        let mut content = slice_to_vec(self.file_data.as_slice());
        buf.append(&mut content);
        proof {
            assert(buf@ =~= spec_entry_encode(self@));
        }
        buf
    }
}

} // verus!
