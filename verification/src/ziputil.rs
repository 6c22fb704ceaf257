//! The archive encoder and decoder of the zip crate, behind trusted
//! declarations: the writer is modelled by the entries it has been given,
//! the opened archive by the entries it holds, the decoder's outcome on
//! arbitrary bytes is named, and the encoder's output is named so that
//! decoding what this library encoded is exact.
use vstd::prelude::*;

verus! {

#[verifier::external_type_specification]
#[verifier::external_body]
#[verifier::reject_recursive_types(T)]
pub struct ExCursor<T>(std::io::Cursor<T>);

#[verifier::external_type_specification]
#[verifier::external_body]
#[verifier::reject_recursive_types(R)]
pub struct ExZipArchive<R>(zip::read::ZipArchive<R>);

#[verifier::external_type_specification]
#[verifier::external_body]
pub struct ExZipError(zip::result::ZipError);

/// The bytes of the archive that encodes the given named entries, in order.
pub uninterp spec fn zip_encode(entries: Seq<(Seq<char>, Seq<u8>)>) -> Seq<u8>;

/// An archive encoder writing to an in-memory buffer. Its writer type
/// carries bounds Verus cannot declare, so the whole holder is opaque and is
/// modelled by the entries it has been given.
#[verifier::external_body]
pub struct ZipBuilder {
    inner: zip::write::ZipWriter<std::io::Cursor<Vec<u8>>>,
}

/// The entries a builder has been given so far, in order.
pub uninterp spec fn zw_entries(w: ZipBuilder) -> Seq<(Seq<char>, Seq<u8>)>;

/// The entries an opened archive holds, in index order.
pub uninterp spec fn za_entries(a: zip::read::ZipArchive<std::io::Cursor<Vec<u8>>>) -> Seq<
    (Seq<char>, Seq<u8>),
>;

/// What the decoder makes of arbitrary bytes: the listed entries where the
/// bytes open as an archive, nothing where they do not. The decoder reads
/// nothing but the bytes, so its outcome is a function of them alone.
pub uninterp spec fn zip_decode(bytes: Seq<u8>) -> Option<Seq<(Seq<char>, Seq<u8>)>>;

/// The opened archive decodes cleanly; it holds of every archive opened from
/// bytes this library's encoder produced.
pub uninterp spec fn za_wf(a: zip::read::ZipArchive<std::io::Cursor<Vec<u8>>>) -> bool;

/// Relies on zip's ZipWriter::new over an empty in-memory buffer: a fresh
/// writer holds no entries.
#[verifier::external_body]
pub(crate) fn zip_writer_new() -> (w: ZipBuilder)
    ensures
        zw_entries(w) == Seq::<(Seq<char>, Seq<u8>)>::empty(),
{
    ZipBuilder { inner: zip::write::ZipWriter::new(std::io::Cursor::new(Vec::new())) }
}

/// Relies on zip's ZipWriter::start_file and Write::write_all: the writer
/// then holds one more entry, carrying the given name and bytes, stored
/// deflate-compressed. The timestamp is pinned so the encoding depends on
/// the entries alone. The name must fit the format's 16-bit length field,
/// which the headers write unchecked; the bytes are held one binary
/// megabyte under the format's 32-bit size field, so the compressed form
/// fits every size field too. Within those bounds, writing to an in-memory
/// buffer cannot fail.
#[verifier::external_body]
pub(crate) fn zip_writer_add(w: &mut ZipBuilder, name: &str, data: &Vec<u8>) -> (r: Result<
    (),
    zip::result::ZipError,
>)
    requires
        vstd::utf8::encode_utf8(name@).len() <= 65535,
        data@.len() <= 0xFFF0_0000,
    ensures
        r is Ok,
        zw_entries(*final(w)) == zw_entries(*old(w)).push((name@, data@)),
{
    let options = zip::write::FileOptions::default().compression_method(
        zip::CompressionMethod::Deflated,
    ).last_modified_time(zip::DateTime::default()).unix_permissions(0o755);
    w.inner.start_file(name, options)?;
    std::io::Write::write_all(&mut w.inner, data.as_slice()).map_err(zip::result::ZipError::Io)?;
    Ok(())
}

/// Relies on zip's ZipWriter::finish: on an in-memory buffer the closing
/// writes cannot fail, an oversized entry count or offset goes into the
/// format's 64-bit records, and the buffer then holds exactly the archive
/// encoding of the entries the writer was given.
#[verifier::external_body]
pub(crate) fn zip_writer_finish(w: ZipBuilder) -> (r: Result<Vec<u8>, zip::result::ZipError>)
    ensures
        r is Ok,
        r matches Ok(bytes) ==> bytes@ == zip_encode(zw_entries(w)),
{
    let mut w = w;
    let cursor = w.inner.finish()?;
    Ok(cursor.into_inner())
}

/// Relies on zip's ZipArchive::new: whether the bytes open, and what they
/// list, depends on the bytes alone, which `zip_decode` names; opening bytes
/// this library's encoder produced always succeeds and yields exactly the
/// encoded entries, in their order.
#[verifier::external_body]
pub(crate) fn zip_open(bytes: Vec<u8>) -> (r: Result<
    zip::read::ZipArchive<std::io::Cursor<Vec<u8>>>,
    zip::result::ZipError,
>)
    ensures
        r is Ok <==> zip_decode(bytes@) is Some,
        r matches Ok(a) ==> za_entries(a) == zip_decode(bytes@)->Some_0,
        r matches Ok(a) ==> forall|es: Seq<(Seq<char>, Seq<u8>)>|
            bytes@ == #[trigger] zip_encode(es) ==> za_entries(a) == es && za_wf(a),
        r is Err ==> forall|es: Seq<(Seq<char>, Seq<u8>)>| bytes@ != #[trigger] zip_encode(es),
{
    zip::read::ZipArchive::new(std::io::Cursor::new(bytes))
}

/// Relies on zip's ZipArchive::len: how many entries the archive holds.
#[verifier::external_body]
pub(crate) fn zip_len(a: &zip::read::ZipArchive<std::io::Cursor<Vec<u8>>>) -> (r: usize)
    ensures
        r as nat == za_entries(*a).len(),
{
    a.len()
}

/// Relies on zip's ZipArchive::by_index_raw, by_index_decrypt and
/// Read::read_to_end: the stored name and the decompressed bytes of the
/// entry at the index. Two guards keep the call total: the raw lookup first
/// tells the entry's method apart and refuses any without a decoder, and
/// the decrypting lookup is used for the read because the plain one panics
/// on an entry that flags an encryption method without declaring itself
/// encrypted; a password-protected entry comes back as an error. The crate
/// is built without its encryption support, so every remaining method
/// either has a decoder or is refused as unsupported before a reader is
/// built. Reading moves the archive's reader but keeps its entries; on an
/// archive this library's encoder produced it cannot fail.
#[verifier::external_body]
pub(crate) fn zip_entry(a: &mut zip::read::ZipArchive<std::io::Cursor<Vec<u8>>>, i: usize) -> (r:
    Result<(String, Vec<u8>), zip::result::ZipError>)
    requires
        i < za_entries(*old(a)).len(),
    ensures
        za_entries(*final(a)) == za_entries(*old(a)),
        za_wf(*final(a)) == za_wf(*old(a)),
        r matches Ok(e) ==> (e.0@, e.1@) == za_entries(*old(a))[i as int],
        za_wf(*old(a)) ==> r is Ok,
{
    match a.by_index_raw(i)?.compression() {
        zip::CompressionMethod::Stored | zip::CompressionMethod::Deflated
        | zip::CompressionMethod::Bzip2 | zip::CompressionMethod::Zstd => {},
        _ => return Err(zip::result::ZipError::UnsupportedArchive("Compression method not supported")),
    }
    let mut f = match a.by_index_decrypt(i, b"")? {
        Ok(f) => f,
        Err(_) => return Err(zip::result::ZipError::UnsupportedArchive(zip::result::ZipError::PASSWORD_REQUIRED)),
    };
    let name = f.name().to_owned();
    let mut buf = Vec::new();
    std::io::Read::read_to_end(&mut f, &mut buf).map_err(zip::result::ZipError::Io)?;
    Ok((name, buf))
}

/// Relies on ZipError's Display implementation for its description.
#[verifier::external_body]
pub(crate) fn zip_error_message(e: &zip::result::ZipError) -> (r: String) {
    e.to_string()
}

} // verus!
