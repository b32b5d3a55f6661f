//! The packer: turns an ordered list of source files into an archive of
//! encrypted entries, one per regular file, in the order given.
use vstd::prelude::*;
use crate::cipher::{CipherContext, cbc_encrypted};
use crate::container::{Entry, members_fit, members_of, write_container, zip_bytes};

verus! {

/// One input of the packer: its path, whether it is a regular file, and its
/// content (empty for a path that is not a regular file).
pub struct SourceFile {
    pub path: String,
    pub regular: bool,
    pub content: Vec<u8>,
}

/// Why packing failed.
pub enum PackError {
    /// A regular file whose path has no file name to derive an entry name from.
    Unnamed(String),
    /// Two regular files that would give entries of the same name.
    DuplicateName(String),
    /// The entries do not fit a plain zip file (see `members_fit`).
    Container,
}

/// A packed archive: the container's bytes and the paths that were skipped
/// because they are not regular files.
pub struct Packed {
    pub archive: Vec<u8>,
    pub skipped: Vec<String>,
}

/// The base name of `path` without its extension, as std's `Path::file_stem`
/// gives it; `None` when the path has no file name.
pub uninterp spec fn file_stem_of(path: Seq<char>) -> Option<Seq<char>>;

/// Relies on std::path::Path::file_stem; a stem of a `&str` path is valid UTF-8.
#[verifier::external_body]
fn file_stem(path: &str) -> (r: Option<String>)
    ensures
        r is Some <==> file_stem_of(path@) is Some,
        r matches Some(s) ==> file_stem_of(path@) == Some(s@),
{
    std::path::Path::new(path).file_stem().and_then(|s| s.to_str()).map(|s| s.to_string())
}

/// The entry name of a file at `path`; `None` when the path has no file name.
pub fn stem_of(path: &str) -> (r: Option<String>)
    ensures
        r is Some <==> file_stem_of(path@) is Some,
        r matches Some(s) ==> s@ == entry_name(path@),
{
    file_stem(path)
}

/// The regular files among `fs`, in order.
pub open spec fn admitted(fs: Seq<SourceFile>) -> Seq<SourceFile>
    decreases fs.len(),
{
    if fs.len() == 0 {
        Seq::empty()
    } else if fs.last().regular {
        admitted(fs.drop_last()).push(fs.last())
    } else {
        admitted(fs.drop_last())
    }
}

/// The paths of the inputs among `fs` that are not regular files, in order.
pub open spec fn skipped(fs: Seq<SourceFile>) -> Seq<Seq<char>>
    decreases fs.len(),
{
    if fs.len() == 0 {
        Seq::empty()
    } else if fs.last().regular {
        skipped(fs.drop_last())
    } else {
        skipped(fs.drop_last()).push(fs.last().path@)
    }
}

/// The entry name of a file at `path`: its stem.
pub open spec fn entry_name(path: Seq<char>) -> Seq<char> {
    match file_stem_of(path) {
        Some(s) => s,
        None => Seq::empty(),
    }
}

/// Every admitted file has a stem.
pub open spec fn all_named(fs: Seq<SourceFile>) -> bool {
    forall|j: int| 0 <= j < admitted(fs).len() ==> (#[trigger] file_stem_of(admitted(fs)[j].path@)) is Some
}

/// No two admitted files share an entry name.
pub open spec fn names_distinct(fs: Seq<SourceFile>) -> bool {
    forall|i: int, j: int| 0 <= i < j < admitted(fs).len()
        ==> entry_name(#[trigger] admitted(fs)[i].path@) != entry_name(#[trigger] admitted(fs)[j].path@)
}

/// The inputs can be packed: every admitted file is named, and the names differ.
pub open spec fn packable(fs: Seq<SourceFile>) -> bool {
    all_named(fs) && names_distinct(fs)
}

/// The entry names of the admitted files, in order.
pub open spec fn entry_names(fs: Seq<SourceFile>) -> Seq<Seq<char>> {
    admitted(fs).map_values(|f: SourceFile| entry_name(f.path@))
}

/// The members an archive of `fs` holds: for each admitted file in order, its
/// entry name and its content encrypted under `key` and `iv`.
pub open spec fn packed_members(key: Seq<u8>, iv: Seq<u8>, fs: Seq<SourceFile>) -> Seq<(Seq<char>, Seq<u8>)> {
    admitted(fs).map_values(|f: SourceFile| (entry_name(f.path@), cbc_encrypted(key, iv, f.content@)))
}

proof fn lemma_admitted_step(fs: Seq<SourceFile>, i: int)
    requires
        0 <= i < fs.len(),
    ensures
        admitted(fs.take(i + 1)) == (if fs[i].regular { admitted(fs.take(i)).push(fs[i]) } else { admitted(fs.take(i)) }),
        skipped(fs.take(i + 1)) == (if fs[i].regular { skipped(fs.take(i)) } else { skipped(fs.take(i)).push(fs[i].path@) }),
{
    assert(fs.take(i + 1).drop_last() =~= fs.take(i));
}

proof fn lemma_admitted_prefix(fs: Seq<SourceFile>, n: int)
    requires
        0 <= n <= fs.len(),
    ensures
        admitted(fs.take(n)).len() <= admitted(fs).len(),
        forall|j: int| 0 <= j < admitted(fs.take(n)).len() ==> admitted(fs)[j] == admitted(fs.take(n))[j],
    decreases fs.len() - n,
{
    if n < fs.len() {
        lemma_admitted_prefix(fs, n + 1);
        lemma_admitted_step(fs, n);
    } else {
        assert(fs.take(n) =~= fs);
    }
}

/// The entry names of the regular files among `files`, in order, or why they
/// cannot name an archive's entries.
pub fn name_entries(files: &Vec<SourceFile>) -> (r: Result<Vec<String>, PackError>)
    ensures
        r is Ok <==> packable(files@),
        r matches Ok(ns) ==> ns@.map_values(|n: String| n@) == entry_names(files@),
        r matches Err(e) ==> (e is Unnamed || e is DuplicateName),
        r matches Err(PackError::Unnamed(p)) ==> !all_named(files@)
            && exists|j: int| 0 <= j < admitted(files@).len() && admitted(files@)[j].path@ == p@
                && file_stem_of(p@) is None,
        r matches Err(PackError::DuplicateName(n)) ==> !names_distinct(files@)
            && exists|i: int, j: int| 0 <= i < j < admitted(files@).len()
                && entry_name(admitted(files@)[i].path@) == n@ && entry_name(admitted(files@)[j].path@) == n@,
{
    let mut names: Vec<String> = Vec::new();
    let mut i: usize = 0;
    while i < files.len()
        invariant
            i <= files@.len(),
            packable(files@.take(i as int)),
            names@.map_values(|n: String| n@) == entry_names(files@.take(i as int)),
        decreases files@.len() - i,
    {
        proof { lemma_admitted_step(files@, i as int); }
        let ghost pre = files@.take(i as int);
        let ghost post = files@.take(i + 1);
        if files[i].regular {
            let stem = stem_of(files[i].path.as_str());
            match stem {
                None => {
                    proof {
                        assert(post.len() == i + 1);
                        assert(admitted(post)[admitted(pre).len() as int] == files@[i as int]);
                        lemma_admitted_prefix(files@, i + 1);
                        assert(!all_named(files@)) by {
                            assert(admitted(files@)[admitted(pre).len() as int] == files@[i as int]);
                            assert(file_stem_of(admitted(files@)[admitted(pre).len() as int].path@) is None);
                        }
                    }
                    return Err(PackError::Unnamed(files[i].path.clone()));
                },
                Some(s) => {
                    let mut k: usize = 0;
                    while k < names.len()
                        invariant
                            i < files@.len(),
                            pre == files@.take(i as int),
                            post == files@.take(i + 1),
                            files@[i as int].regular,
                            file_stem_of(files@[i as int].path@) == Some(s@),
                            admitted(post) == admitted(pre).push(files@[i as int]),
                            k <= names@.len(),
                            names@.map_values(|n: String| n@) == entry_names(pre),
                            forall|m: int| 0 <= m < k ==> names@[m]@ != s@,
                        decreases names@.len() - k,
                    {
                        if names[k] == s {
                            proof {
                                lemma_admitted_prefix(files@, i + 1);
                                let a = admitted(files@);
                                assert(names@.map_values(|n: String| n@).len() == names@.len());
                                assert(names@.map_values(|n: String| n@)[k as int] == entry_names(pre)[k as int]);
                                assert(a[k as int] == admitted(pre)[k as int]);
                                assert(a[admitted(pre).len() as int] == files@[i as int]);
                                assert(entry_name(a[k as int].path@) == s@);
                                assert(entry_name(a[admitted(pre).len() as int].path@) == s@);
                            }
                            return Err(PackError::DuplicateName(s));
                        }
                        k = k + 1;
                    }
                    let ghost prev = names@;
                    names.push(s);
                    proof {
                        assert(names@.map_values(|n: String| n@) =~= prev.map_values(|n: String| n@).push(entry_name(files@[i as int].path@)));
                        assert(entry_names(post) =~= entry_names(pre).push(entry_name(files@[i as int].path@)));
                        assert forall|x: int, y: int| 0 <= x < y < admitted(post).len()
                            implies entry_name(#[trigger] admitted(post)[x].path@) != entry_name(#[trigger] admitted(post)[y].path@) by {
                            if y == admitted(pre).len() {
                                assert(prev.map_values(|n: String| n@)[x] == entry_names(pre)[x]);
                            }
                        }
                    }
                },
            }
        }
        i = i + 1;
    }
    assert(files@.take(files@.len() as int) =~= files@);
    Ok(names)
}

/// The paths among `files` that are not regular files, in order.
pub fn skipped_paths(files: &Vec<SourceFile>) -> (r: Vec<String>)
    ensures
        r@.map_values(|p: String| p@) == skipped(files@),
{
    let mut out: Vec<String> = Vec::new();
    let mut i: usize = 0;
    while i < files.len()
        invariant
            i <= files@.len(),
            out@.map_values(|p: String| p@) == skipped(files@.take(i as int)),
        decreases files@.len() - i,
    {
        proof { lemma_admitted_step(files@, i as int); }
        if !files[i].regular {
            let ghost prev = out@;
            out.push(files[i].path.clone());
            assert(out@.map_values(|p: String| p@) =~= prev.map_values(|p: String| p@).push(files@[i as int].path@));
        }
        i = i + 1;
    }
    assert(files@.take(files@.len() as int) =~= files@);
    out
}

/// The entries of the regular files among `files`, in order, named by `names`,
/// their contents encrypted under `ctx`.
fn seal_entries(ctx: &CipherContext, files: &Vec<SourceFile>, names: &Vec<String>) -> (r: Vec<Entry>)
    requires
        ctx.wf(),
        names@.map_values(|n: String| n@) == entry_names(files@),
    ensures
        members_of(r@) == packed_members(ctx.key_view(), ctx.iv_view(), files@),
{
    let ghost k = ctx.key_view();
    let ghost v = ctx.iv_view();
    let mut out: Vec<Entry> = Vec::new();
    let mut i: usize = 0;
    let mut j: usize = 0;
    assert(names@.map_values(|n: String| n@).len() == names@.len());
    while i < files.len()
        invariant
            ctx.wf(),
            k == ctx.key_view(),
            v == ctx.iv_view(),
            i <= files@.len(),
            names@.len() == admitted(files@).len(),
            names@.map_values(|n: String| n@) == entry_names(files@),
            j == admitted(files@.take(i as int)).len(),
            members_of(out@) == packed_members(k, v, files@.take(i as int)),
        decreases files@.len() - i,
    {
        proof {
            lemma_admitted_step(files@, i as int);
            lemma_admitted_prefix(files@, i + 1);
        }
        if files[i].regular {
            let f = &files[i];
            assert(admitted(files@.take(i + 1)) == admitted(files@.take(i as int)).push(files@[i as int]));
            assert(j < names@.len());
            assert(names@.len() <= usize::MAX) by { assert(names.len() == names@.len()); }
            assert(admitted(files@)[j as int] == files@[i as int]);
            assert(names@.map_values(|n: String| n@)[j as int] == entry_names(files@)[j as int]);
            let c = ctx.encrypt(f.content.as_slice()).unwrap();
            let e = Entry { name: names[j].clone(), data: c };
            let ghost prev = out@;
            out.push(e);
            proof {
                assert(out@ == prev.push(e));
                assert(members_of(out@) =~= members_of(prev).push(e@));
                assert(packed_members(k, v, files@.take(i + 1)) =~= packed_members(k, v, files@.take(i as int)).push(e@));
            }
            j = j + 1;
        }
        i = i + 1;
    }
    assert(files@.take(files@.len() as int) =~= files@);
    out
}

/// Packs `files` under `ctx`: one stored entry per regular file, in the order
/// given, named by the file's stem, holding its encrypted content. Paths that
/// are not regular files are skipped and reported.
pub fn pack(ctx: &CipherContext, files: &Vec<SourceFile>) -> (r: Result<Packed, PackError>)
    requires
        ctx.wf(),
    ensures
        r is Ok ==> packable(files@),
        r matches Ok(p) ==> p.archive@ == zip_bytes(packed_members(ctx.key_view(), ctx.iv_view(), files@)),
        r matches Ok(p) ==> p.skipped@.map_values(|s: String| s@) == skipped(files@),
        r is Ok <==> packable(files@) && members_fit(packed_members(ctx.key_view(), ctx.iv_view(), files@)),
        !packable(files@) ==> (r matches Err(e) && (e is Unnamed || e is DuplicateName)),
        packable(files@) && !members_fit(packed_members(ctx.key_view(), ctx.iv_view(), files@))
            ==> r matches Err(PackError::Container),
{
    let names = name_entries(files)?;
    let entries = seal_entries(ctx, files, &names);
    let archive = match write_container(&entries) {
        Some(b) => b,
        None => { return Err(PackError::Container); },
    };
    let skipped = skipped_paths(files);
    Ok(Packed { archive, skipped })
}

/// Packing is deterministic: two archives that `pack` writes for the same
/// files under the same key and IV are byte for byte the same.
pub proof fn lemma_pack_deterministic(key: Seq<u8>, iv: Seq<u8>, files: Seq<SourceFile>, first: Seq<u8>, second: Seq<u8>)
    requires
        first == zip_bytes(packed_members(key, iv, files)),
        second == zip_bytes(packed_members(key, iv, files)),
    ensures
        first == second,
{
}

} // verus!
