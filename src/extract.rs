//! Archive kinds, chosen by a source's suffix, and the decoding of their
//! compression layer.
use vstd::prelude::*;
use std::io::Read;
use crate::error::{ProvisionError, ProvisionFault};
use crate::text::{ends_with, has_suffix, join_spec, join_path};

verus! {

/// The kinds of archive an artifact can come in.
#[derive(Debug, Clone, Copy, PartialEq, Eq, Structural)]
pub enum ArchiveKind {
    /// A `.tar.gz` archive.
    TarGz,
    /// A `.tar.xz` archive.
    TarXz,
    /// A `.zip` archive.
    Zip,
    /// A `.pkg` installer package.
    Pkg,
}

/// The archive kind that a source's suffix names, if any.
pub open spec fn kind_spec(source: Seq<char>) -> Option<ArchiveKind> {
    if has_suffix(source, ".tar.gz"@) {
        Some(ArchiveKind::TarGz)
    } else if has_suffix(source, ".tar.xz"@) {
        Some(ArchiveKind::TarXz)
    } else if has_suffix(source, ".zip"@) {
        Some(ArchiveKind::Zip)
    } else if has_suffix(source, ".pkg"@) {
        Some(ArchiveKind::Pkg)
    } else {
        None
    }
}

/// The archive kind that the suffix of `source` names, if any.
pub fn archive_kind(source: &str) -> (r: Option<ArchiveKind>)
    ensures
        r == kind_spec(source@),
{
    if ends_with(source, ".tar.gz") {
        Some(ArchiveKind::TarGz)
    } else if ends_with(source, ".tar.xz") {
        Some(ArchiveKind::TarXz)
    } else if ends_with(source, ".zip") {
        Some(ArchiveKind::Zip)
    } else if ends_with(source, ".pkg") {
        Some(ArchiveKind::Pkg)
    } else {
        None
    }
}

/// What follows the last dot of `s`; all of `s` where it has none.
pub open spec fn after_last_dot(s: Seq<char>) -> Seq<char>
    decreases s.len(),
{
    if s.len() == 0 {
        s
    } else if s.last() == '.' {
        Seq::empty()
    } else {
        after_last_dot(s.drop_last()).push(s.last())
    }
}

/// What follows the last dot of `s`.
pub fn suffix_of(s: &str) -> (r: String)
    ensures
        r@ == after_last_dot(s@),
{
    let n = s.unicode_len();
    let mut j: usize = n;
    proof {
        assert(s@.subrange(0, n as int) =~= s@);
        assert(s@.subrange(n as int, n as int) =~= Seq::<char>::empty());
        assert(after_last_dot(s@) + Seq::<char>::empty() =~= after_last_dot(s@));
    }
    while j > 0 && s.get_char(j - 1) != '.'
        invariant
            j <= n,
            n == s@.len(),
            after_last_dot(s@) == after_last_dot(s@.subrange(0, j as int)) + s@.subrange(
                j as int,
                n as int,
            ),
        decreases j,
    {
        proof {
            let p = s@.subrange(0, j as int);
            assert(p.drop_last() =~= s@.subrange(0, j - 1));
            assert(p.last() == s@[j - 1]);
            assert(s@.subrange(j - 1, n as int) =~= seq![s@[j - 1]] + s@.subrange(j as int, n as int));
            assert(after_last_dot(s@.subrange(0, j - 1)).push(s@[j - 1]) + s@.subrange(j as int, n as int)
                =~= after_last_dot(s@.subrange(0, j - 1)) + s@.subrange(j - 1, n as int));
        }
        j = j - 1;
    }
    proof {
        if j == 0 {
            assert(s@.subrange(0, 0).len() == 0);
        } else {
            assert(s@.subrange(0, j as int).last() == s@[j - 1]);
        }
        assert(after_last_dot(s@) =~= s@.subrange(j as int, n as int));
    }
    String::from_str(s.substring_char(j, n))
}

/// The content of an archive once its compression layer is decoded: a tar
/// stream, a zip archive, or an installer package.
#[derive(Debug)]
pub enum Payload {
    Tar(Vec<u8>),
    Zip(Vec<u8>),
    Pkg(Vec<u8>),
}

/// What decoding the gzip stream at the start of `b` gives; `None` where it
/// is no valid gzip stream.
pub uninterp spec fn gunzip_of(b: Seq<u8>) -> Option<Seq<u8>>;

/// What decoding the xz stream at the start of `b` gives; `None` where it is
/// no valid xz stream.
pub uninterp spec fn unxz_of(b: Seq<u8>) -> Option<Seq<u8>>;

/// Relies on flate2::read::GzDecoder: read to its end, it yields the bytes
/// that the gzip stream in `b` encodes, or an error where `b` holds none;
/// either depends on the bytes alone.
#[verifier::external_body]
fn gunzip(b: &[u8]) -> (r: Result<Vec<u8>, String>)
    ensures
        r is Ok <==> gunzip_of(b@) is Some,
        r is Ok ==> r->Ok_0@ == gunzip_of(b@)->Some_0,
{
    let mut out = Vec::new();
    match flate2::read::GzDecoder::new(b).read_to_end(&mut out) {
        Ok(_) => Ok(out),
        Err(e) => Err(e.to_string()),
    }
}

/// Relies on xz::read::XzDecoder: read to its end, it yields the bytes that
/// the xz stream in `b` encodes, or an error where `b` holds none; either
/// depends on the bytes alone.
#[verifier::external_body]
fn unxz(b: &[u8]) -> (r: Result<Vec<u8>, String>)
    ensures
        r is Ok <==> unxz_of(b@) is Some,
        r is Ok ==> r->Ok_0@ == unxz_of(b@)->Some_0,
{
    let mut out = Vec::new();
    match xz::read::XzDecoder::new(b).read_to_end(&mut out) {
        Ok(_) => Ok(out),
        Err(e) => Err(e.to_string()),
    }
}

/// The tar payload that a decoded compression layer gives, or the decoding
/// failure as an extraction error.
pub fn tar_payload(decoded: Result<Vec<u8>, String>) -> (r: Result<Payload, ProvisionError>)
    ensures
        match decoded {
            Ok(t) => r matches Ok(Payload::Tar(u)) && u@ == t@,
            Err(reason) => r matches Err(e) && e@ == (ProvisionFault::Extract { reason: reason@ }),
        },
{
    match decoded {
        Ok(t) => Ok(Payload::Tar(t)),
        Err(reason) => Err(ProvisionError::Extract { reason }),
    }
}

/// Decodes the compression layer of archive `bytes` of kind `kind`: gzip
/// and xz streams are decoded into a tar stream; zip archives and installer
/// packages are handed on as they are.
pub fn decode_payload(kind: ArchiveKind, bytes: Vec<u8>) -> (r: Result<Payload, ProvisionError>)
    ensures
        kind == ArchiveKind::TarGz ==> match gunzip_of(bytes@) {
            Some(t) => r matches Ok(Payload::Tar(u)) && u@ == t,
            None => r matches Err(ProvisionError::Extract { .. }),
        },
        kind == ArchiveKind::TarXz ==> match unxz_of(bytes@) {
            Some(t) => r matches Ok(Payload::Tar(u)) && u@ == t,
            None => r matches Err(ProvisionError::Extract { .. }),
        },
        kind == ArchiveKind::Zip ==> (r matches Ok(Payload::Zip(u)) && u@ == bytes@),
        kind == ArchiveKind::Pkg ==> (r matches Ok(Payload::Pkg(u)) && u@ == bytes@),
{
    match kind {
        ArchiveKind::TarGz => tar_payload(gunzip(bytes.as_slice())),
        ArchiveKind::TarXz => tar_payload(unxz(bytes.as_slice())),
        ArchiveKind::Zip => Ok(Payload::Zip(bytes)),
        ArchiveKind::Pkg => Ok(Payload::Pkg(bytes)),
    }
}

/// Whether `p` has a `..` component that starts at position `i`.
pub open spec fn is_parent_at(p: Seq<char>, i: int) -> bool {
    &&& 0 <= i
    &&& i + 2 <= p.len()
    &&& p[i] == '.'
    &&& p[i + 1] == '.'
    &&& (i == 0 || p[i - 1] == '/')
    &&& (i + 2 == p.len() || p[i + 2] == '/')
}

/// Whether path `p`, joined onto a directory, stays inside it: it is not
/// absolute and none of its components is `..`.
pub open spec fn is_contained(p: Seq<char>) -> bool {
    &&& !(p.len() > 0 && p[0] == '/')
    &&& forall|i: int| !#[trigger] is_parent_at(p, i)
}

/// Whether path `p` stays inside the directory it is joined onto.
pub fn contained(p: &str) -> (r: bool)
    ensures
        r == is_contained(p@),
{
    let n = p.unicode_len();
    if n > 0 && p.get_char(0) == '/' {
        return false;
    }
    let mut i: usize = 0;
    while i < n
        invariant
            i <= n,
            n == p@.len(),
            !(n > 0 && p@[0] == '/'),
            forall|j: int| 0 <= j < i ==> !#[trigger] is_parent_at(p@, j),
        decreases n - i,
    {
        if i + 1 < n && p.get_char(i) == '.' && p.get_char(i + 1) == '.' && (i == 0 || p.get_char(i - 1) == '/')
            && (i + 2 == n || p.get_char(i + 2) == '/') {
            assert(is_parent_at(p@, i as int));
            return false;
        }
        i = i + 1;
    }
    true
}

/// Where an entry of an installer package's payload is written: under the
/// target directory at the entry's own path, for an entry of non-zero size;
/// entries of size zero mark directories and are not written. An entry whose
/// path would leave the target directory is refused.
pub fn pkg_entry_path(target: &str, entry: &str, size: u64) -> (r: Result<Option<String>, ProvisionError>)
    ensures
        !is_contained(entry@) ==> r is Err && r->Err_0 is Extract,
        is_contained(entry@) && size == 0 ==> r == Ok::<Option<String>, ProvisionError>(None),
        is_contained(entry@) && size != 0 ==> (r matches Ok(Some(path)) && path@ == join_spec(
            target@,
            entry@,
        )),
{
    if !contained(entry) {
        let mut reason = String::from_str("the entry leaves the target directory: ");
        reason.append(entry);
        Err(ProvisionError::Extract { reason })
    } else if size == 0 {
        Ok(None)
    } else {
        Ok(Some(join_path(target, entry)))
    }
}

} // verus!
