//! Archive decoding: raw fetched bytes become a sequence of
//! (logical path, content) entries. The format is chosen by filename suffix:
//! zip archives and gzip-compressed tar archives are unpacked entry by
//! entry, anything else is one whole-buffer entry.

use vstd::prelude::*;

use crate::scan::file_sentinel;

verus! {

/// One decoded entry: the logical path a match is attributed to and the
/// entry's full content.
pub struct DecodedEntry {
    pub logical_path: String,
    pub content: Vec<u8>,
}

pub open spec fn entry_views(s: Seq<DecodedEntry>) -> Seq<(Seq<char>, Seq<u8>)> {
    s.map_values(|e: DecodedEntry| (e.logical_path@, e.content@))
}

/// The decoding format, picked from the filename suffix alone.
#[derive(Clone, Copy, PartialEq, Eq, Structural, Debug)]
pub enum ArchiveKind {
    Plain,
    Zip,
    GzipTar,
}

pub open spec fn ends_with(s: Seq<char>, suffix: Seq<char>) -> bool {
    s.len() >= suffix.len() && s.subrange(s.len() - suffix.len(), s.len() as int) == suffix
}

pub open spec fn zip_suffix() -> Seq<char> {
    seq!['.', 'z', 'i', 'p']
}

pub open spec fn targz_suffix() -> Seq<char> {
    seq!['.', 't', 'a', 'r', '.', 'g', 'z']
}

pub open spec fn tgz_suffix() -> Seq<char> {
    seq!['.', 't', 'g', 'z']
}

pub open spec fn kind_of(f: Seq<char>) -> ArchiveKind {
    if ends_with(f, zip_suffix()) {
        ArchiveKind::Zip
    } else if ends_with(f, targz_suffix()) || ends_with(f, tgz_suffix()) {
        ArchiveKind::GzipTar
    } else {
        ArchiveKind::Plain
    }
}

/// Whether the characters of `v` end with the given suffix.
fn ends_with_chars(v: &Vec<char>, suffix: &Vec<char>) -> (r: bool)
    ensures
        r == ends_with(v@, suffix@),
{
    let n = v.len();
    let m = suffix.len();
    if n < m {
        return false;
    }
    let mut i: usize = 0;
    while i < m
        invariant
            m <= n,
            n == v@.len(),
            m == suffix@.len(),
            i <= m,
            forall|j: int| 0 <= j < i ==> v@[n - m + j] == suffix@[j],
        decreases m - i,
    {
        if v[n - m + i] != suffix[i] {
            assert(v@.subrange(n - m, n as int)[i as int] == v@[n - m + i]);
            return false;
        }
        i = i + 1;
    }
    proof {
        assert(v@.subrange(n - m, n as int) =~= suffix@);
    }
    true
}

/// Picks the decoding format from the filename suffix.
pub fn classify(filename: &String) -> (r: ArchiveKind)
    ensures
        r == kind_of(filename@),
{
    proof {
        reveal_strlit(".zip");
        reveal_strlit(".tar.gz");
        reveal_strlit(".tgz");
        assert(".zip"@ =~= zip_suffix());
        assert(".tar.gz"@ =~= targz_suffix());
        assert(".tgz"@ =~= tgz_suffix());
    }
    let cv = crate::scan::chars_vec(filename.as_str());
    let zip_s = crate::scan::chars_vec(".zip");
    let targz_s = crate::scan::chars_vec(".tar.gz");
    let tgz_s = crate::scan::chars_vec(".tgz");
    if ends_with_chars(&cv, &zip_s) {
        ArchiveKind::Zip
    } else if ends_with_chars(&cv, &targz_s) || ends_with_chars(&cv, &tgz_s) {
        ArchiveKind::GzipTar
    } else {
        ArchiveKind::Plain
    }
}

/// What reading a zip archive yields, entry by entry in archive order: the
/// entry name, whether it is a directory, and its content where it could be
/// read; it depends on the bytes alone. Unreadable archives yield no
/// entries.
pub uninterp spec fn zip_raw_of(b: Seq<u8>) -> Seq<(Seq<char>, bool, Option<Seq<u8>>)>;

/// What reading a gzip-compressed tar archive yields, entry by entry in
/// archive order: the entry path and its content where it could be read; it
/// depends on the bytes alone. Unreadable archives yield no entries.
pub uninterp spec fn targz_raw_of(b: Seq<u8>) -> Seq<(Seq<char>, Option<Seq<u8>>)>;

pub open spec fn opt_bytes_view(o: Option<Vec<u8>>) -> Option<Seq<u8>> {
    match o {
        Some(v) => Some(v@),
        None => None,
    }
}

pub open spec fn zip_raw_views(s: Seq<(String, bool, Option<Vec<u8>>)>) -> Seq<
    (Seq<char>, bool, Option<Seq<u8>>),
> {
    s.map_values(|e: (String, bool, Option<Vec<u8>>)| (e.0@, e.1, opt_bytes_view(e.2)))
}

pub open spec fn targz_raw_views(s: Seq<(String, Option<Vec<u8>>)>) -> Seq<
    (Seq<char>, Option<Seq<u8>>),
> {
    s.map_values(|e: (String, Option<Vec<u8>>)| (e.0@, opt_bytes_view(e.1)))
}

/// Relies on zip's ZipArchive: every entry of the archive in index order,
/// with its name, its directory flag, and its bytes where they could be
/// read. An archive that cannot be opened yields no entries.
#[verifier::external_body]
fn zip_raw_entries(bytes: &Vec<u8>) -> (r: Vec<(String, bool, Option<Vec<u8>>)>)
    ensures
        zip_raw_views(r@) == zip_raw_of(bytes@),
{
    let mut out = Vec::new();
    if let Ok(mut archive) = zip::ZipArchive::new(std::io::Cursor::new(bytes)) {
        for i in 0..archive.len() {
            if let Ok(mut f) = archive.by_index(i) {
                let (name, is_dir) = (f.name().to_string(), f.is_dir());
                let mut buf = Vec::new();
                let ok = std::io::Read::read_to_end(&mut f, &mut buf).is_ok();
                out.push((name, is_dir, if ok { Some(buf) } else { None }));
            }
        }
    }
    out
}

/// Relies on flate2's GzDecoder and tar's Archive: every entry of the
/// decompressed tar stream in archive order, with its path and its bytes
/// where they could be read. An unreadable stream yields no entries.
#[verifier::external_body]
fn targz_raw_entries(bytes: &Vec<u8>) -> (r: Vec<(String, Option<Vec<u8>>)>)
    ensures
        targz_raw_views(r@) == targz_raw_of(bytes@),
{
    let mut out = Vec::new();
    let gz = flate2::read::GzDecoder::new(std::io::Cursor::new(bytes));
    let mut arch = tar::Archive::new(gz);
    if let Ok(entries) = arch.entries() {
        for mut e in entries.flatten() {
            if let Ok(name) = e.path().map(|p| p.to_string_lossy().to_string()) {
                let mut buf = Vec::new();
                let ok = std::io::Read::read_to_end(&mut e, &mut buf).is_ok();
                out.push((name, if ok { Some(buf) } else { None }));
            }
        }
    }
    out
}

pub open spec fn zip_prefix() -> Seq<char> {
    seq!['z', 'i', 'p', ':']
}

pub open spec fn tar_prefix() -> Seq<char> {
    seq!['t', 'a', 'r', ':']
}

/// The decoded entries a zip archive contributes: every non-directory entry
/// whose bytes could be read, in archive order, under `zip:` + name.
pub open spec fn zip_entry_model(raw: Seq<(Seq<char>, bool, Option<Seq<u8>>)>) -> Seq<
    (Seq<char>, Seq<u8>),
>
    decreases raw.len(),
{
    if raw.len() == 0 {
        Seq::empty()
    } else {
        let e = raw.last();
        zip_entry_model(raw.drop_last()) + (if !e.1 && e.2 is Some {
            seq![(zip_prefix() + e.0, e.2->0)]
        } else {
            Seq::empty()
        })
    }
}

/// The decoded entries a tar archive contributes: every entry whose bytes
/// could be read, in archive order, under `tar:` + path.
pub open spec fn targz_entry_model(raw: Seq<(Seq<char>, Option<Seq<u8>>)>) -> Seq<
    (Seq<char>, Seq<u8>),
>
    decreases raw.len(),
{
    if raw.len() == 0 {
        Seq::empty()
    } else {
        let e = raw.last();
        targz_entry_model(raw.drop_last()) + (if e.1 is Some {
            seq![(tar_prefix() + e.0, e.1->0)]
        } else {
            Seq::empty()
        })
    }
}

/// The ordered entries decoding yields for a buffer and filename: the
/// archive's own entries for zip and gzip-tar suffixes, else the whole
/// buffer as one entry under the whole-buffer sentinel path.
pub open spec fn decode_model(b: Seq<u8>, f: Seq<char>) -> Seq<(Seq<char>, Seq<u8>)> {
    match kind_of(f) {
        ArchiveKind::Zip => zip_entry_model(zip_raw_of(b)),
        ArchiveKind::GzipTar => targz_entry_model(targz_raw_of(b)),
        ArchiveKind::Plain => seq![(file_sentinel(), b)],
    }
}

/// Decodes one fetched buffer into its ordered entries, dispatching on the
/// filename suffix. Directory entries and entries whose bytes cannot be
/// read are skipped; an unreadable archive yields no entries; a buffer with
/// any other suffix is returned whole as one entry.
pub fn decode(bytes: &Vec<u8>, filename: &String) -> (r: Vec<DecodedEntry>)
    ensures
        entry_views(r@) == decode_model(bytes@, filename@),
{
    match classify(filename) {
        ArchiveKind::Plain => {
            proof {
                reveal_strlit("file");
                assert("file"@ =~= file_sentinel());
            }
            let logical_path = String::from_str("file");
            let content = vstd::slice::slice_to_vec(bytes.as_slice());
            let e = DecodedEntry { logical_path, content };
            let mut out: Vec<DecodedEntry> = Vec::new();
            out.push(e);
            proof {
                assert(entry_views(out@) =~= decode_model(bytes@, filename@));
            }
            out
        },
        ArchiveKind::Zip => {
            proof {
                reveal_strlit("zip:");
                assert("zip:"@ =~= zip_prefix());
            }
            let raw = zip_raw_entries(bytes);
            let mut out: Vec<DecodedEntry> = Vec::new();
            let n = raw.len();
            let mut i: usize = 0;
            while i < n
                invariant
                    n == raw@.len(),
                    i <= n,
                    zip_raw_views(raw@) == zip_raw_of(bytes@),
                    entry_views(out@) == zip_entry_model(zip_raw_views(raw@).take(i as int)),
                decreases n - i,
            {
                let ghost prev = out@;
                let e = &raw[i];
                let mut keep = false;
                if !e.1 {
                    if let Some(content) = &e.2 {
                        let logical_path = String::from_str("zip:").concat(e.0.as_str());
                        out.push(
                            DecodedEntry {
                                logical_path,
                                content: vstd::slice::slice_to_vec(content.as_slice()),
                            },
                        );
                        keep = true;
                    }
                }
                proof {
                    reveal_strlit("zip:");
                    assert("zip:"@ =~= zip_prefix());
                    let whole = zip_raw_views(raw@);
                    assert(whole.take(i + 1).drop_last() =~= whole.take(i as int));
                    assert(whole.take(i + 1).last() == whole[i as int]);
                    if keep {
                        assert(entry_views(out@) =~~= entry_views(prev) + seq![
                            (zip_prefix() + whole[i as int].0, whole[i as int].2->0),
                        ]);
                    } else {
                        assert(entry_views(out@) =~= entry_views(prev) + Seq::<
                            (Seq<char>, Seq<u8>),
                        >::empty());
                    }
                }
                i = i + 1;
            }
            proof {
                assert(zip_raw_views(raw@).take(n as int) =~= zip_raw_views(raw@));
            }
            out
        },
        ArchiveKind::GzipTar => {
            proof {
                reveal_strlit("tar:");
                assert("tar:"@ =~= tar_prefix());
            }
            let raw = targz_raw_entries(bytes);
            let mut out: Vec<DecodedEntry> = Vec::new();
            let n = raw.len();
            let mut i: usize = 0;
            while i < n
                invariant
                    n == raw@.len(),
                    i <= n,
                    targz_raw_views(raw@) == targz_raw_of(bytes@),
                    entry_views(out@) == targz_entry_model(targz_raw_views(raw@).take(i as int)),
                decreases n - i,
            {
                let ghost prev = out@;
                let e = &raw[i];
                let mut keep = false;
                if let Some(content) = &e.1 {
                    let logical_path = String::from_str("tar:").concat(e.0.as_str());
                    out.push(
                        DecodedEntry {
                            logical_path,
                            content: vstd::slice::slice_to_vec(content.as_slice()),
                        },
                    );
                    keep = true;
                }
                proof {
                    reveal_strlit("tar:");
                    assert("tar:"@ =~= tar_prefix());
                    let whole = targz_raw_views(raw@);
                    assert(whole.take(i + 1).drop_last() =~= whole.take(i as int));
                    assert(whole.take(i + 1).last() == whole[i as int]);
                    if keep {
                        assert(entry_views(out@) =~~= entry_views(prev) + seq![
                            (tar_prefix() + whole[i as int].0, whole[i as int].1->0),
                        ]);
                    } else {
                        assert(entry_views(out@) =~= entry_views(prev) + Seq::<
                            (Seq<char>, Seq<u8>),
                        >::empty());
                    }
                }
                i = i + 1;
            }
            proof {
                assert(targz_raw_views(raw@).take(n as int) =~= targz_raw_views(raw@));
            }
            out
        },
    }
}

/// Decoding is a function of the bytes and the filename alone: two decodes
/// of equal inputs yield the same ordered entries.
pub proof fn lemma_decode_deterministic(b1: Seq<u8>, f1: Seq<char>, b2: Seq<u8>, f2: Seq<char>)
    requires
        b1 == b2,
        f1 == f2,
    ensures
        decode_model(b1, f1) == decode_model(b2, f2),
{
}

} // verus!
