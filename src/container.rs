//! The archive container: a zip file of stored (uncompressed) members, one
//! per entry, in entry order.
use vstd::prelude::*;
use std::io::Read;
use std::io::Write;

verus! {

/// One named entry of an archive.
pub struct Entry {
    pub name: String,
    pub data: Vec<u8>,
}

impl View for Entry {
    type V = (Seq<char>, Seq<u8>);

    open spec fn view(&self) -> (Seq<char>, Seq<u8>) {
        (self.name@, self.data@)
    }
}

/// The (name, data) pairs of a sequence of entries, in order.
pub open spec fn members_of(es: Seq<Entry>) -> Seq<(Seq<char>, Seq<u8>)> {
    es.map_values(|e: Entry| e@)
}

#[verifier::external_type_specification]
#[verifier::external_body]
#[verifier::reject_recursive_types(T)]
pub struct ExCursor<T>(std::io::Cursor<T>);

/// A zip writer over an in-memory buffer. `zip::ZipWriter` bounds its
/// parameter by `Write + Seek`, which Verus cannot take in a type
/// declaration, so the writer is held here behind the wrappers below.
#[verifier::external_body]
pub struct ZipSink {
    inner: zip::ZipWriter<std::io::Cursor<Vec<u8>>>,
}

#[verifier::external_type_specification]
#[verifier::external_body]
#[verifier::reject_recursive_types(R)]
pub struct ExZipArchive<R>(zip::ZipArchive<R>);

/// The members, (name, data) in order, that a zip writer holds so far.
pub uninterp spec fn written_members(w: ZipSink) -> Seq<(Seq<char>, Seq<u8>)>;

/// The bytes of the zip file that a zip writer finishes with these stored members.
pub uninterp spec fn zip_bytes(members: Seq<(Seq<char>, Seq<u8>)>) -> Seq<u8>;

/// The members, (name, data) in central-directory order, of an opened zip archive.
pub uninterp spec fn archive_members(a: zip::ZipArchive<std::io::Cursor<Vec<u8>>>) -> Seq<(Seq<char>, Seq<u8>)>;

/// Largest number of characters in a member name: at four UTF-8 bytes a
/// character, such a name stays under the 64 KiB that the zip format's 16-bit
/// name length can record.
pub const MAX_NAME_CHARS: usize = 16383;

/// The room members take in a zip file, counted generously: data, four bytes
/// per name character, and 128 bytes of headers each.
pub open spec fn members_size(ms: Seq<(Seq<char>, Seq<u8>)>) -> int
    decreases ms.len(),
{
    if ms.len() == 0 {
        0
    } else {
        members_size(ms.drop_last()) + ms.last().1.len() + 4 * ms.last().0.len() + 128
    }
}

/// Members that fit a plain (not zip64) zip file: fewer than 65535 of them,
/// names of at most `MAX_NAME_CHARS` characters, and all of it under 4 GiB.
pub open spec fn members_fit(ms: Seq<(Seq<char>, Seq<u8>)>) -> bool {
    &&& ms.len() < 65535
    &&& forall|i: int| 0 <= i < ms.len() ==> (#[trigger] ms[i]).0.len() <= MAX_NAME_CHARS
    &&& members_size(ms) < 0xFFFF_FFFF
}

/// Whether every member of an opened archive can be read back.
pub uninterp spec fn archive_intact(a: zip::ZipArchive<std::io::Cursor<Vec<u8>>>) -> bool;

/// Relies on zip::ZipWriter::new over an empty in-memory cursor: no members yet.
#[verifier::external_body]
fn new_writer() -> (w: ZipSink)
    ensures
        written_members(w) == Seq::<(Seq<char>, Seq<u8>)>::empty(),
{
    ZipSink { inner: zip::ZipWriter::new(std::io::Cursor::new(Vec::new())) }
}

/// Relies on zip::ZipWriter::start_file with the stored method and the default
/// (fixed) timestamp: a new, empty member named `name` follows the others.
/// Over an in-memory buffer it succeeds while the members fit.
#[verifier::external_body]
fn start_member(w: &mut ZipSink, name: &str) -> (ok: bool)
    requires
        name@.len() <= MAX_NAME_CHARS,
    ensures
        members_fit(written_members(*old(w)).push((name@, Seq::<u8>::empty()))) ==> ok,
        ok ==> written_members(*final(w)) == written_members(*old(w)).push((name@, Seq::<u8>::empty())),
{
    let options = zip::write::FileOptions::default()
        .compression_method(zip::CompressionMethod::Stored);
    w.inner.start_file(name, options).is_ok()
}

/// Relies on std::io::Write::write_all on a zip writer: `data` is appended to
/// the member started last. Over an in-memory buffer it succeeds while the
/// members fit (a stored member may hold up to 4 GiB).
#[verifier::external_body]
fn append_member(w: &mut ZipSink, data: &[u8]) -> (ok: bool)
    requires
        written_members(*old(w)).len() > 0,
    ensures
        members_fit(written_members(*old(w)).update(
            written_members(*old(w)).len() - 1,
            (written_members(*old(w)).last().0, written_members(*old(w)).last().1 + data@),
        )) ==> ok,
        ok ==> written_members(*final(w)) == written_members(*old(w)).update(
            written_members(*old(w)).len() - 1,
            (written_members(*old(w)).last().0, written_members(*old(w)).last().1 + data@),
        ),
{
    w.inner.write_all(data).is_ok()
}

/// Relies on zip::ZipWriter::finish: the zip file with the members written;
/// over an in-memory buffer it succeeds while the members fit.
#[verifier::external_body]
fn finish_writer(w: &mut ZipSink) -> (r: Option<Vec<u8>>)
    ensures
        members_fit(written_members(*old(w))) ==> r is Some,
        r matches Some(b) ==> b@ == zip_bytes(written_members(*old(w))),
{
    w.inner.finish().ok().map(|c| c.into_inner())
}

/// Relies on zip::ZipArchive::new over an in-memory cursor: `None` when no
/// zip file is found. A file that a zip writer finished with members that fit
/// opens, with those members, each of which reads back.
#[verifier::external_body]
fn open_archive(bytes: Vec<u8>) -> (r: Option<zip::ZipArchive<std::io::Cursor<Vec<u8>>>>)
    ensures
        forall|ms: Seq<(Seq<char>, Seq<u8>)>| #[trigger] zip_bytes(ms) == bytes@ && members_fit(ms) ==> r is Some,
        r matches Some(a) ==> forall|ms: Seq<(Seq<char>, Seq<u8>)>|
            #[trigger] zip_bytes(ms) == bytes@ && members_fit(ms) ==> archive_members(a) == ms && archive_intact(a),
{
    zip::ZipArchive::new(std::io::Cursor::new(bytes)).ok()
}

/// Relies on zip::ZipArchive::len: the number of members.
#[verifier::external_body]
fn member_count(a: &zip::ZipArchive<std::io::Cursor<Vec<u8>>>) -> (n: usize)
    ensures
        n == archive_members(*a).len(),
{
    a.len()
}

/// Relies on zip::ZipArchive::by_index, then the member's name and its data
/// read to the end: `None` when the member cannot be read, which does not
/// happen in an archive whose members all read back.
#[verifier::external_body]
fn read_member(a: &mut zip::ZipArchive<std::io::Cursor<Vec<u8>>>, i: usize) -> (r: Option<(String, Vec<u8>)>)
    requires
        i < archive_members(*old(a)).len(),
    ensures
        archive_members(*final(a)) == archive_members(*old(a)),
        archive_intact(*final(a)) == archive_intact(*old(a)),
        archive_intact(*old(a)) ==> r is Some,
        r matches Some(m) ==> (m.0@, m.1@) == archive_members(*old(a))[i as int],
{
    let mut member = a.by_index(i).ok()?;
    let mut data = Vec::new();
    member.read_to_end(&mut data).ok()?;
    Some((member.name().to_string(), data))
}

proof fn lemma_size_step(ms: Seq<(Seq<char>, Seq<u8>)>, i: int)
    requires
        0 <= i < ms.len(),
    ensures
        members_size(ms.take(i + 1)) == members_size(ms.take(i)) + ms[i].1.len() + 4 * ms[i].0.len() + 128,
        members_size(ms.take(i).push((ms[i].0, Seq::<u8>::empty()))) == members_size(ms.take(i)) + 4 * ms[i].0.len() + 128,
{
    assert(ms.take(i + 1).drop_last() =~= ms.take(i));
    assert(ms.take(i).push((ms[i].0, Seq::<u8>::empty())).drop_last() =~= ms.take(i));
}

proof fn lemma_size_prefix(ms: Seq<(Seq<char>, Seq<u8>)>, i: int)
    requires
        0 <= i <= ms.len(),
    ensures
        0 <= members_size(ms.take(i)) <= members_size(ms),
    decreases ms.len() - i,
{
    if i < ms.len() {
        lemma_size_prefix(ms, i + 1);
        lemma_size_step(ms, i);
        lemma_size_nonneg(ms.take(i));
    } else {
        assert(ms.take(i) =~= ms);
        lemma_size_nonneg(ms);
    }
}

proof fn lemma_size_nonneg(ms: Seq<(Seq<char>, Seq<u8>)>)
    ensures
        members_size(ms) >= 0,
    decreases ms.len(),
{
    if ms.len() > 0 {
        lemma_size_nonneg(ms.drop_last());
    }
}

/// Whether `entries` fit a plain zip file (see `members_fit`).
pub fn container_fits(entries: &Vec<Entry>) -> (b: bool)
    ensures
        b == members_fit(members_of(entries@)),
{
    let ghost ms = members_of(entries@);
    assert(ms.len() == entries@.len());
    if entries.len() >= 65535 {
        return false;
    }
    let mut total: u64 = 0;
    let mut i: usize = 0;
    while i < entries.len()
        invariant
            ms == members_of(entries@),
            ms.len() == entries@.len(),
            i <= entries@.len(),
            total == members_size(ms.take(i as int)),
            total < 0xFFFF_FFFF,
            forall|k: int| 0 <= k < i ==> (#[trigger] ms[k]).0.len() <= MAX_NAME_CHARS,
        decreases entries@.len() - i,
    {
        let e = &entries[i];
        assert(ms[i as int] == e@);
        proof { lemma_size_step(ms, i as int); lemma_size_prefix(ms, i + 1); }
        let chars = e.name.as_str().unicode_len();
        if chars > MAX_NAME_CHARS {
            return false;
        }
        let n = e.data.len() as u64;
        if n >= 0xFFFF_FFFF || total + n + 4 * (chars as u64) + 128 >= 0xFFFF_FFFF {
            return false;
        }
        total = total + n + 4 * (chars as u64) + 128;
        i = i + 1;
    }
    assert(ms.take(i as int) =~= ms);
    true
}

/// Writes `entries` as a zip file of stored members, one per entry, in
/// order. It succeeds exactly when the entries fit a plain zip file.
pub fn write_container(entries: &Vec<Entry>) -> (r: Option<Vec<u8>>)
    ensures
        r is Some <==> members_fit(members_of(entries@)),
        r matches Some(b) ==> b@ == zip_bytes(members_of(entries@)),
{
    if !container_fits(entries) {
        return None;
    }
    let ghost ms = members_of(entries@);
    let mut w = new_writer();
    let mut i: usize = 0;
    while i < entries.len()
        invariant
            ms == members_of(entries@),
            members_fit(ms),
            i <= entries@.len(),
            written_members(w) == ms.take(i as int),
        decreases entries@.len() - i,
    {
        let e = &entries[i];
        assert(ms[i as int] == e@);
        proof {
            lemma_size_step(ms, i as int);
            lemma_size_prefix(ms, i + 1);
            let t = ms.take(i as int).push((ms[i as int].0, Seq::<u8>::empty()));
            assert forall|k: int| 0 <= k < t.len() implies (#[trigger] t[k]).0.len() <= MAX_NAME_CHARS by {
                if k < i { assert(t[k] == ms[k]); }
            }
            let u = ms.take(i + 1);
            assert forall|k: int| 0 <= k < u.len() implies (#[trigger] u[k]).0.len() <= MAX_NAME_CHARS by {
                assert(u[k] == ms[k]);
            }
        }
        if !start_member(&mut w, e.name.as_str()) {
            return None;
        }
        assert(written_members(w).update(i as int, (e.name@, Seq::<u8>::empty() + e.data@)) =~= ms.take(i + 1));
        if !append_member(&mut w, e.data.as_slice()) {
            return None;
        }
        i = i + 1;
    }
    assert(ms.take(i as int) =~= ms);
    finish_writer(&mut w)
}

/// Reads the members of the zip file `bytes` as entries, in stored order;
/// `None` when the file or one of its members cannot be read. A file that
/// `write_container` produced reads back, as the entries it was written from.
pub fn read_container(bytes: Vec<u8>) -> (r: Option<Vec<Entry>>)
    ensures
        forall|ms: Seq<(Seq<char>, Seq<u8>)>| #[trigger] zip_bytes(ms) == bytes@ && members_fit(ms) ==> r is Some,
        r matches Some(es) ==> forall|ms: Seq<(Seq<char>, Seq<u8>)>|
            #[trigger] zip_bytes(ms) == bytes@ && members_fit(ms) ==> members_of(es@) == ms,
{
    let ghost b = bytes@;
    let mut a = open_archive(bytes)?;
    let ghost ms0 = archive_members(a);
    let ghost a0 = a;
    let n = member_count(&a);
    let mut out: Vec<Entry> = Vec::new();
    let mut i: usize = 0;
    while i < n
        invariant
            n == ms0.len(),
            i <= n,
            archive_members(a) == ms0,
            archive_intact(a) == archive_intact(a0),
            b == bytes@,
            (forall|ms: Seq<(Seq<char>, Seq<u8>)>| #[trigger] zip_bytes(ms) == b && members_fit(ms) ==> archive_intact(a0)),
            members_of(out@) == ms0.take(i as int),
        decreases n - i,
    {
        let m = match read_member(&mut a, i) {
            Some(m) => m,
            None => {
                assert(!archive_intact(a0));
                assert forall|ms: Seq<(Seq<char>, Seq<u8>)>| !(#[trigger] zip_bytes(ms) == b && members_fit(ms)) by {
                    if zip_bytes(ms) == b && members_fit(ms) {
                        assert(archive_intact(a0));
                    }
                }
                return None;
            },
        };
        let e = Entry { name: m.0, data: m.1 };
        assert(e@ == ms0[i as int]);
        let ghost prev = out@;
        out.push(e);
        assert(out@ == prev.push(e));
        assert(members_of(out@) =~= members_of(prev).push(e@));
        assert(members_of(out@) =~= ms0.take(i + 1));
        i = i + 1;
    }
    assert(ms0.take(n as int) =~= ms0);
    Some(out)
}

/// Entries read back in exactly the order written: reading what
/// `write_container` wrote for `written` gives entries with the same names and
/// data, in the same order, whatever the names are.
pub proof fn lemma_container_order(written: Seq<Entry>, bytes: Seq<u8>, read: Seq<Entry>)
    requires
        bytes == zip_bytes(members_of(written)),
        members_fit(members_of(written)),
        forall|ms: Seq<(Seq<char>, Seq<u8>)>| #[trigger] zip_bytes(ms) == bytes && members_fit(ms) ==> members_of(read) == ms,
    ensures
        members_of(read) == members_of(written),
        read.len() == written.len(),
        forall|i: int| 0 <= i < read.len() ==> (#[trigger] read[i])@ == written[i]@,
{
    assert(members_of(read) == members_of(written));
    assert forall|i: int| 0 <= i < read.len() implies (#[trigger] read[i])@ == written[i]@ by {
        assert(members_of(read)[i] == members_of(written)[i]);
    }
}

} // verus!
