//! Compressed files: gzip framing (.vgz) and zlib streams.

use crate::bytes::{le16, u16_at};
use crate::event::Error;
use crate::header::{has_magic, VGM_MAGIC};
use miniz_oxide::inflate::DecompressError;
use vstd::prelude::*;
use vstd::slice::{slice_subrange, slice_to_vec};

verus! {

/// The first two bytes of a gzip file.
pub const GZIP_MAGIC: [u8; 2] = [0x1f, 0x8b];

/// `miniz_oxide::inflate::DecompressError`: the status and the partial output
/// of a failed decompression. Nothing of what it holds is used.
#[verifier::external_type_specification]
#[verifier::external_body]
pub struct ExDecompressError(miniz_oxide::inflate::DecompressError);

/// What the raw DEFLATE stream at the start of `d` holds, or `None` where
/// `miniz_oxide::inflate::decompress_to_vec` finds no complete valid stream.
pub uninterp spec fn inflated(d: Seq<u8>) -> Option<Seq<u8>>;

/// What the zlib stream at the start of `d` holds, or `None` where
/// `miniz_oxide::inflate::decompress_to_vec_zlib` finds no complete valid
/// stream.
pub uninterp spec fn zlib_inflated(d: Seq<u8>) -> Option<Seq<u8>>;

/// `miniz_oxide::inflate::decompress_to_vec` succeeds or fails, and succeeds
/// with the same bytes, depending on the input bytes alone. It
/// begins with a buffer of twice the input's length and puts no bound on its
/// output, so that, as with any allocation, the memory must suffice.
pub assume_specification[ miniz_oxide::inflate::decompress_to_vec ](input: &[u8]) -> (r: Result<
    Vec<u8>,
    miniz_oxide::inflate::DecompressError,
>)
    ensures
        match r {
            Ok(v) => inflated(input@) == Some(v@),
            Err(_) => inflated(input@) is None,
        },
;

/// `miniz_oxide::inflate::decompress_to_vec_zlib` succeeds or fails, and
/// succeeds with the same bytes, depending on the input bytes alone. The
/// memory must suffice here too.
pub assume_specification[ miniz_oxide::inflate::decompress_to_vec_zlib ](input: &[u8]) -> (r: Result<
    Vec<u8>,
    miniz_oxide::inflate::DecompressError,
>)
    ensures
        match r {
            Ok(v) => zlib_inflated(input@) == Some(v@),
            Err(_) => zlib_inflated(input@) is None,
        },
;

/// Whether `d` begins with the gzip identification.
pub open spec fn is_gzip(d: Seq<u8>) -> bool {
    d.len() >= 2 && d[0] == GZIP_MAGIC[0] && d[1] == GZIP_MAGIC[1]
}

/// Behind the extra field at `p`: a 16-bit length and as many bytes.
pub open spec fn after_extra(d: Seq<u8>, p: int) -> Option<int> {
    if p + 2 <= d.len() {
        Some(p + 2 + le16(d, p))
    } else {
        None
    }
}

/// Behind the zero-terminated string at `p`.
pub open spec fn after_string(d: Seq<u8>, p: int) -> Option<int>
    decreases d.len() - p,
{
    if p >= d.len() {
        None
    } else if d[p] == 0 {
        Some(p + 1)
    } else {
        after_string(d, p + 1)
    }
}

/// Where the compressed data of the gzip file `d` start, or `None` where its
/// header is cut off. Ten fixed bytes are followed by the optional fields that
/// the flags in byte 3 announce: extra field (4), name (8), comment (0x10),
/// header checksum (2).
pub open spec fn gzip_body(d: Seq<u8>) -> Option<int> {
    if d.len() < 4 {
        None
    } else {
        let flags = d[3];
        let p = if flags & 0x04 != 0 {
            after_extra(d, 10)
        } else {
            Some(10)
        };
        let p = optional_string(d, p, flags & 0x08 != 0);
        let p = optional_string(d, p, flags & 0x10 != 0);
        match p {
            Some(p) => {
                let body = if flags & 0x02 != 0 {
                    p + 2
                } else {
                    p
                };
                if body <= d.len() {
                    Some(body)
                } else {
                    None
                }
            },
            None => None,
        }
    }
}

/// Behind a string at `p` where there is one.
pub open spec fn optional_string(d: Seq<u8>, p: Option<int>, present: bool) -> Option<int> {
    match p {
        Some(at) => if present {
            after_string(d, at)
        } else {
            p
        },
        None => None,
    }
}

/// Skips the string at `p`, if there is one.
fn skip_string(data: &[u8], p: usize, present: bool) -> (r: Result<usize, Error>)
    ensures
        match r {
            Ok(e) => optional_string(data@, Some(p as int), present) == Some(e as int),
            Err(e) => e == Error::Gzip && optional_string(data@, Some(p as int), present) is None,
        },
{
    if !present {
        return Ok(p);
    }
    let mut q: usize = p;
    while q < data.len()
        invariant
            present,
            after_string(data@, q as int) == after_string(data@, p as int),
        decreases data@.len() - q,
    {
        if data[q] == 0 {
            return Ok(q + 1);
        }
        q = q + 1;
    }
    Err(Error::Gzip)
}

/// Where the compressed data of the gzip file `data` start.
pub fn gzip_body_start(data: &[u8]) -> (r: Result<usize, Error>)
    ensures
        match r {
            Ok(p) => gzip_body(data@) == Some(p as int),
            Err(e) => e == Error::Gzip && gzip_body(data@) is None,
        },
{
    let len: usize = data.len();
    if len < 4 {
        return Err(Error::Gzip);
    }
    let flags: u8 = data[3];
    let mut p: usize = 10;
    if flags & 0x04 != 0 {
        if len < 12 {
            return Err(Error::Gzip);
        }
        p = 12 + u16_at(data, 10) as usize;
    }
    p = skip_string(data, p, flags & 0x08 != 0)?;
    p = skip_string(data, p, flags & 0x10 != 0)?;
    if flags & 0x02 != 0 {
        if p > len || len - p < 2 {
            return Err(Error::Gzip);
        }
        p = p + 2;
    }
    if p > len {
        return Err(Error::Gzip);
    }
    Ok(p)
}

/// The contents of a gzip file, given what inflating its compressed data gave.
pub fn gzip_contents(r: Result<Vec<u8>, DecompressError>) -> (out: Result<Vec<u8>, Error>)
    ensures
        match r {
            Ok(v) => out == Ok::<Vec<u8>, Error>(v),
            Err(_) => out == Err::<Vec<u8>, Error>(Error::Gzip),
        },
{
    match r {
        Ok(v) => Ok(v),
        Err(_) => Err(Error::Gzip),
    }
}

/// The contents of a zlib stream, given what inflating it gave.
pub fn zlib_contents(r: Result<Vec<u8>, DecompressError>) -> (out: Option<Vec<u8>>)
    ensures
        match r {
            Ok(v) => out == Some(v),
            Err(_) => out is None,
        },
{
    match r {
        Ok(v) => Some(v),
        Err(_) => None,
    }
}

/// Unpacks a buffer that begins with the gzip identification (.vgz), and
/// copies any other.
pub fn decompress(data: &[u8]) -> (r: Result<Vec<u8>, Error>)
    ensures
        !is_gzip(data@) ==> (r matches Ok(v) && v@ == data@),
        is_gzip(data@) ==> match unpacked(data@) {
            Some(out) => r matches Ok(v) && v@ == out,
            None => r matches Err(e) && e == Error::Gzip,
        },
{
    if data.len() >= 2 && data[0] == GZIP_MAGIC[0] && data[1] == GZIP_MAGIC[1] {
        let p: usize = gzip_body_start(data)?;
        let body: &[u8] = slice_subrange(data, p, data.len());
        assert(body@ =~= data@.skip(p as int));
        gzip_contents(miniz_oxide::inflate::decompress_to_vec(body))
    } else {
        Ok(slice_to_vec(data))
    }
}

/// The contents of the gzip file `d`, if its header is complete and its
/// compressed data can be inflated.
pub open spec fn unpacked(d: Seq<u8>) -> Option<Seq<u8>> {
    match gzip_body(d) {
        Some(p) => inflated(d.skip(p)),
        None => None,
    }
}

/// The contents of a zlib stream (GYMX compression), or `None` on an error.
pub fn decompress_zlib(data: &[u8]) -> (r: Option<Vec<u8>>)
    ensures
        match r {
            Some(v) => zlib_inflated(data@) == Some(v@),
            None => zlib_inflated(data@) is None,
        },
{
    zlib_contents(miniz_oxide::inflate::decompress_to_vec_zlib(data))
}

/// The optional fields of a gzip header.
pub struct GzipFields {
    pub extra: Option<Seq<u8>>,
    pub name: Option<Seq<u8>>,
    pub comment: Option<Seq<u8>>,
    pub checksum: Option<(u8, u8)>,
}

impl GzipFields {
    /// The fields can be written down: the length of the extra field fits in
    /// 16 bits, and the strings hold no zero.
    pub open spec fn valid(self) -> bool {
        &&& self.extra matches Some(x) ==> x.len() < 0x1_0000
        &&& self.name matches Some(s) ==> !s.contains(0)
        &&& self.comment matches Some(s) ==> !s.contains(0)
    }

    /// `flags` announces these fields.
    pub open spec fn announced_by(self, flags: u8) -> bool {
        &&& self.extra is Some <==> flags & 0x04 != 0
        &&& self.name is Some <==> flags & 0x08 != 0
        &&& self.comment is Some <==> flags & 0x10 != 0
        &&& self.checksum is Some <==> flags & 0x02 != 0
    }

    /// The fields as they stand in a header.
    pub open spec fn written(self) -> Seq<u8> {
        extra_field(self.extra) + string_field(self.name) + string_field(self.comment) + (
        match self.checksum {
            Some((a, b)) => seq![a, b],
            None => Seq::empty(),
        })
    }
}

/// An extra field with its length.
pub open spec fn extra_field(extra: Option<Seq<u8>>) -> Seq<u8> {
    match extra {
        Some(x) => seq![(x.len() % 0x100) as u8, (x.len() / 0x100) as u8] + x,
        None => Seq::empty(),
    }
}

/// A string with its terminating zero.
pub open spec fn string_field(string: Option<Seq<u8>>) -> Seq<u8> {
    match string {
        Some(s) => s.push(0),
        None => Seq::empty(),
    }
}

/// A string that stands in `d` at `p` is skipped with its zero.
proof fn lemma_after_string(d: Seq<u8>, p: int, s: Seq<u8>)
    requires
        0 <= p,
        p + s.len() < d.len(),
        !s.contains(0),
        forall|i: int| 0 <= i < s.len() ==> d[p + i] == s[i],
        d[p + s.len()] == 0,
    ensures
        after_string(d, p) == Some(p + s.len() + 1),
    decreases s.len(),
{
    if s.len() > 0 {
        let rest = s.drop_first();
        assert(d[p] == s[0]);
        assert(s.contains(s[0]));
        assert(!rest.contains(0)) by {
            if rest.contains(0) {
                let j = choose|j: int| 0 <= j < rest.len() && rest[j] == 0;
                assert(s[j + 1] == 0);
            }
        }
        assert forall|i: int| 0 <= i < rest.len() implies d[p + 1 + i] == rest[i] by {
            assert(d[p + (i + 1)] == s[i + 1]);
        }
        lemma_after_string(d, p + 1, rest);
    }
}

/// An optional string that stands in `d` at `p` is skipped.
proof fn lemma_optional_string(d: Seq<u8>, p: int, string: Option<Seq<u8>>)
    requires
        0 <= p,
        p + string_field(string).len() <= d.len(),
        string matches Some(s) ==> !s.contains(0),
        forall|i: int|
            0 <= i < string_field(string).len() ==> d[p + i] == #[trigger] string_field(string)[i],
    ensures
        optional_string(d, Some(p), string is Some) == Some(p + string_field(string).len()),
{
    if let Some(s) = string {
        let f = string_field(string);
        assert forall|i: int| 0 <= i < s.len() implies d[p + i] == s[i] by {
            assert(f[i] == s[i]);
        }
        assert(f[s.len() as int] == 0);
        lemma_after_string(d, p, s);
    }
}

/// Whatever optional fields a gzip header has, unpacking skips exactly the
/// header: the contents are what the bytes behind it inflate to.
pub proof fn lemma_header_is_skipped(fixed: Seq<u8>, fields: GzipFields, body: Seq<u8>)
    requires
        fixed.len() == 10,
        fields.valid(),
        fields.announced_by(fixed[3]),
    ensures
        gzip_body(fixed + fields.written() + body) == Some((10 + fields.written().len()) as int),
        unpacked(fixed + fields.written() + body) == inflated(body),
{
    let d = fixed + fields.written() + body;
    let e = extra_field(fields.extra);
    let n = string_field(fields.name);
    let c = string_field(fields.comment);
    assert(d[3] == fixed[3]);
    let p1 = 10 + e.len();
    let p2 = p1 + n.len();
    let p3 = p2 + c.len();
    assert forall|i: int| 0 <= i < n.len() implies d[p1 + i] == #[trigger] n[i] by {}
    assert forall|i: int| 0 <= i < c.len() implies d[p2 + i] == #[trigger] c[i] by {}
    if let Some(x) = fields.extra {
        assert(d[10] == e[0] && d[11] == e[1]);
        assert(le16(d, 10) == x.len());
    }
    lemma_optional_string(d, p1 as int, fields.name);
    lemma_optional_string(d, p2 as int, fields.comment);
    assert(d.skip((10 + fields.written().len()) as int) =~= body);
}

/// A plain VGM file is not taken for a compressed one, so it passes through
/// [`decompress`] unchanged.
pub proof fn lemma_plain_file_is_not_gzip(d: Seq<u8>)
    requires
        d.len() >= 4,
        has_magic(d),
    ensures
        !is_gzip(d),
{
    assert(d.subrange(0, 4)[0] == d[0]);
    assert(VGM_MAGIC@[0] == 0x56);
}

/// A gzip file is unpacked, whatever its method, time stamp and system say and
/// whatever optional fields its header has: [`decompress`] gives what the bytes
/// behind the header inflate to, and refuses the file where they cannot be
/// inflated.
pub proof fn lemma_gzip_file_is_unpacked(
    data: &[u8],
    r: Result<Vec<u8>, Error>,
    fixed: Seq<u8>,
    fields: GzipFields,
    body: Seq<u8>,
)
    requires
        call_ensures(decompress, (data,), r),
        fixed.len() == 10,
        fixed[0] == 0x1F && fixed[1] == 0x8B,
        fields.valid(),
        fields.announced_by(fixed[3]),
        data@ == fixed + fields.written() + body,
    ensures
        match inflated(body) {
            Some(out) => r matches Ok(v) && v@ == out,
            None => r == Err::<Vec<u8>, Error>(Error::Gzip),
        },
{
    lemma_header_is_skipped(fixed, fields, body);
    assert(data@[0] == fixed[0] && data@[1] == fixed[1]);
}

/// Only a gzip file is unpacked: any buffer that does not begin with 0x1F, 0x8B
/// comes out of [`decompress`] as it is.
pub proof fn lemma_other_files_pass_through(data: &[u8], r: Result<Vec<u8>, Error>)
    requires
        call_ensures(decompress, (data,), r),
        data@.len() < 2 || data@[0] != 0x1F || data@[1] != 0x8B,
    ensures
        r matches Ok(v) && v@ == data@,
{
}

/// A gzip file with a header that is cut off is refused: where [`decompress`]
/// unpacks a buffer that begins with 0x1F, 0x8B, this is a complete header with
/// bytes behind it that inflate to the result. It is refused in one way only.
pub proof fn lemma_only_complete_gzip_is_unpacked(data: &[u8], r: Result<Vec<u8>, Error>)
    requires
        call_ensures(decompress, (data,), r),
        data@.len() >= 2 && data@[0] == 0x1F && data@[1] == 0x8B,
    ensures
        match r {
            Ok(v) => data@.len() >= 10 && exists|fields: GzipFields|
                #[trigger] has_fields(data@, fields) && inflated(
                    data@.skip(10 + fields.written().len() as int),
                ) == Some(v@),
            Err(e) => e == Error::Gzip,
        },
{
    if r is Ok {
        let fields = lemma_fields_of_header(data@);
        assert(has_fields(data@, fields));
        assert(inflated(data@.skip(10 + fields.written().len() as int)) == Some(r->Ok_0@));
    }
}

/// `d` begins with a complete gzip header with the optional fields `fields`.
pub open spec fn has_fields(d: Seq<u8>, fields: GzipFields) -> bool {
    &&& fields.valid()
    &&& d.len() >= 10 + fields.written().len()
    &&& fields.announced_by(d[3])
    &&& d.subrange(10, 10 + fields.written().len() as int) == fields.written()
}

/// [`gzip_body_start`] finds the end of a complete header, and nothing else: the
/// compressed data start right behind the optional fields.
pub proof fn lemma_body_starts_behind_the_header(data: &[u8], r: Result<usize, Error>)
    requires
        call_ensures(gzip_body_start, (data,), r),
    ensures
        forall|fields: GzipFields| #[trigger]
            has_fields(data@, fields) ==> (r matches Ok(p) && p == 10 + fields.written().len()),
        r is Ok ==> exists|fields: GzipFields| #[trigger] has_fields(data@, fields),
        r matches Err(e) ==> e == Error::Gzip,
{
    assert forall|fields: GzipFields| #[trigger] has_fields(data@, fields) implies (r matches Ok(p)
        && p == 10 + fields.written().len()) by {
        let w = fields.written();
        let fixed = data@.take(10);
        let body = data@.skip(10 + w.len() as int);
        assert(fixed[3] == data@[3]);
        assert(data@ =~= fixed + data@.subrange(10, 10 + w.len() as int) + body);
        lemma_header_is_skipped(fixed, fields, body);
    }
    if r is Ok {
        let fields = lemma_fields_of_header(data@);
        assert(has_fields(data@, fields));
    }
}

/// Where a string was skipped, it stands, with its zero.
proof fn lemma_string_was_skipped(d: Seq<u8>, p: int)
    requires
        0 <= p,
        after_string(d, p) is Some,
    ensures
        ({
            let q = after_string(d, p)->0;
            &&& p < q <= d.len()
            &&& d[q - 1] == 0
            &&& forall|i: int| p <= i < q - 1 ==> d[i] != 0
        }),
    decreases d.len() - p,
{
    if d[p] != 0 {
        lemma_string_was_skipped(d, p + 1);
    }
}

/// The string field that was skipped from `p` on.
proof fn lemma_optional_string_was_skipped(d: Seq<u8>, p: int, present: bool) -> (string: Option<
    Seq<u8>,
>)
    requires
        0 <= p,
        optional_string(d, Some(p), present) is Some,
    ensures
        string is Some <==> present,
        string matches Some(s) ==> !s.contains(0),
        ({
            let q = optional_string(d, Some(p), present)->0;
            &&& q == p + string_field(string).len()
            &&& present ==> q <= d.len()
            &&& forall|i: int|
                0 <= i < string_field(string).len() ==> d[p + i] == #[trigger] string_field(
                    string,
                )[i]
        }),
{
    if present {
        lemma_string_was_skipped(d, p);
        let q = after_string(d, p)->0;
        let s = d.subrange(p, q - 1);
        assert(!s.contains(0)) by {
            if s.contains(0) {
                let j = choose|j: int| 0 <= j < s.len() && s[j] == 0;
                assert(d[p + j] == 0);
            }
        }
        Some(s)
    } else {
        None
    }
}

/// The optional fields of a header whose end was found.
#[verifier::rlimit(40)]
proof fn lemma_fields_of_header(d: Seq<u8>) -> (fields: GzipFields)
    requires
        gzip_body(d) is Some,
    ensures
        has_fields(d, fields),
        gzip_body(d) == Some(10 + fields.written().len() as int),
{
    let flags = d[3];
    let has_extra = flags & 0x04 != 0;
    let extra = if has_extra {
        Some(d.subrange(12, 12 + le16(d, 10)))
    } else {
        None
    };
    let p1 = if has_extra {
        12 + le16(d, 10)
    } else {
        10
    };
    let name = lemma_optional_string_was_skipped(d, p1, flags & 0x08 != 0);
    let p2 = p1 + string_field(name).len();
    let comment = lemma_optional_string_was_skipped(d, p2, flags & 0x10 != 0);
    let p3 = p2 + string_field(comment).len();
    let checksum = if flags & 0x02 != 0 {
        Some((d[p3], d[p3 + 1]))
    } else {
        None
    };
    let fields = GzipFields { extra, name, comment, checksum };
    let w = fields.written();
    let e = extra_field(extra);
    let n = string_field(name);
    let c = string_field(comment);
    assert(p3 <= d.len());
    assert(e.len() == p1 - 10);
    assert forall|i: int| 0 <= i < w.len() implies d[10 + i] == w[i] by {
        if i < e.len() {
            assert(w[i] == e[i]);
            assert(d[10 + i] == e[i]);
        } else if i < e.len() + n.len() {
            assert(w[i] == n[i - e.len()]);
            assert(d[p1 + (i - e.len())] == n[i - e.len()]);
        } else if i < e.len() + n.len() + c.len() {
            assert(w[i] == c[i - e.len() - n.len()]);
            assert(d[p2 + (i - e.len() - n.len())] == c[i - e.len() - n.len()]);
        }
    }
    assert(d.subrange(10, 10 + w.len() as int) =~= w);
    fields
}

/// A zlib stream is unpacked to what it inflates to, and [`decompress_zlib`]
/// gives nothing only where it cannot be inflated.
pub proof fn lemma_zlib_stream_is_unpacked(data: &[u8], r: Option<Vec<u8>>)
    requires
        call_ensures(decompress_zlib, (data,), r),
    ensures
        r is Some <==> zlib_inflated(data@) is Some,
        r matches Some(v) ==> zlib_inflated(data@)->0 == v@,
{
}

} // verus!
