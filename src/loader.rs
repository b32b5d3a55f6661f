//! The loader: decrypts an archive's entries in stored order and tells its
//! host, one step at a time, which module to define, then which entry-point
//! text to execute. The host performs each step; this side decides them.
use vstd::prelude::*;
use crate::cipher::{CipherContext, cbc_decrypted, cbc_encrypted};
use crate::container::{Entry, members_fit, members_of, read_container, zip_bytes};
use crate::pack::{SourceFile, admitted, file_stem_of, entry_name, packed_members};

verus! {

/// The reserved entry name of the program's entry-point source.
pub const SENTINEL: &'static str = "__main__";

/// A module for the host to define: its name in the package, its synthetic
/// source path `<package>/<name>`, its qualified name `<package>.<name>`, and
/// its decrypted source.
pub struct ModuleDef {
    pub name: String,
    pub path: String,
    pub qualified: String,
    pub source: Vec<u8>,
}

impl View for ModuleDef {
    type V = (Seq<char>, Seq<char>, Seq<char>, Seq<u8>);

    open spec fn view(&self) -> Self::V {
        (self.name@, self.path@, self.qualified@, self.source@)
    }
}

/// Why loading failed.
pub enum LoadError {
    /// The archive's path has no file name to name the package by.
    Unnamed,
    /// The archive could not be opened or one of its members read.
    Container,
    /// The entry of this name did not decrypt.
    Decode(String),
}

/// What the host does next.
pub enum Step {
    /// Define this module and bind it in the package.
    Define(ModuleDef),
    /// Every module is defined: execute this entry-point source in the package.
    Execute(Vec<u8>),
    /// Every module is defined and the archive has no entry point; or the
    /// loader stopped earlier.
    Finished,
    /// Loading stopped on this error; nothing further is defined.
    Failed(LoadError),
}

/// The module that an entry `name` with decrypted text `source` defines in `package`.
pub open spec fn module_def(package: Seq<char>, name: Seq<char>, source: Seq<u8>) -> (Seq<char>, Seq<char>, Seq<char>, Seq<u8>) {
    (name, package + "/"@ + name, package + "."@ + name, source)
}

/// The modules that decrypted entries `items`, (name, text) in stored order,
/// define in `package`: one per entry whose name is not the sentinel, in order.
pub open spec fn defs_of(package: Seq<char>, items: Seq<(Seq<char>, Seq<u8>)>) -> Seq<(Seq<char>, Seq<char>, Seq<char>, Seq<u8>)>
    decreases items.len(),
{
    if items.len() == 0 {
        Seq::empty()
    } else if items.last().0 == SENTINEL@ {
        defs_of(package, items.drop_last())
    } else {
        defs_of(package, items.drop_last()).push(module_def(package, items.last().0, items.last().1))
    }
}

/// The entry-point source among decrypted entries `items`: the text of the
/// last entry named by the sentinel, if any.
pub open spec fn entry_source_of(items: Seq<(Seq<char>, Seq<u8>)>) -> Option<Seq<u8>>
    decreases items.len(),
{
    if items.len() == 0 {
        None
    } else if items.last().0 == SENTINEL@ {
        Some(items.last().1)
    } else {
        entry_source_of(items.drop_last())
    }
}

/// The package an archive at `path` loads into: its stem.
pub fn package_name(path: &str) -> (r: Option<String>)
    ensures
        r is Some <==> file_stem_of(path@) is Some,
        r matches Some(s) ==> s@ == entry_name(path@),
{
    crate::pack::stem_of(path)
}

/// The state of one load.
pub struct Loader {
    ctx: CipherContext,
    package: String,
    entries: Vec<Entry>,
    next: usize,
    entry_source: Option<Vec<u8>>,
    halted: bool,
    plains: Ghost<Seq<Seq<u8>>>,
}

impl Loader {
    pub closed spec fn key_view(&self) -> Seq<u8> {
        self.ctx.key_view()
    }

    pub closed spec fn iv_view(&self) -> Seq<u8> {
        self.ctx.iv_view()
    }

    pub closed spec fn package_view(&self) -> Seq<char> {
        self.package@
    }

    /// The archive's entries, (name, ciphertext) in stored order.
    pub closed spec fn members(&self) -> Seq<(Seq<char>, Seq<u8>)> {
        members_of(self.entries@)
    }

    /// How many entries have been decrypted.
    pub closed spec fn processed(&self) -> nat {
        self.next as nat
    }

    pub closed spec fn is_halted(&self) -> bool {
        self.halted
    }

    /// The decrypted entries so far, (name, text) in stored order.
    pub closed spec fn items(&self) -> Seq<(Seq<char>, Seq<u8>)> {
        Seq::new(self.next as nat, |j: int| (members_of(self.entries@)[j].0, self.plains@[j]))
    }

    /// The entry-point source found so far.
    pub closed spec fn entry_view(&self) -> Option<Seq<u8>> {
        match self.entry_source {
            Some(s) => Some(s@),
            None => None,
        }
    }

    /// The modules defined so far, in order.
    pub open spec fn defined(&self) -> Seq<(Seq<char>, Seq<char>, Seq<char>, Seq<u8>)> {
        defs_of(self.package_view(), self.items())
    }

    pub closed spec fn wf(&self) -> bool {
        &&& self.ctx.wf()
        &&& self.next <= self.entries@.len()
        &&& self.plains@.len() == self.next
        &&& forall|j: int| 0 <= j < self.next ==> #[trigger] self.plains@[j] == cbc_decrypted(self.key_view(), self.iv_view(), self.entries@[j].data@)
        &&& forall|j: int, q: Seq<u8>|
            #![trigger self.plains@[j], cbc_encrypted(self.key_view(), self.iv_view(), q)]
            0 <= j < self.next
            && cbc_encrypted(self.key_view(), self.iv_view(), q) == self.entries@[j].data@
            ==> self.plains@[j] == q
        &&& self.entry_view() == entry_source_of(self.items())
    }

    /// Opens the archive `bytes` found at `archive_path` for loading under
    /// `ctx`, into the package named by the path's stem.
    pub fn open(ctx: CipherContext, archive_path: &str, bytes: Vec<u8>) -> (r: Result<Loader, LoadError>)
        requires
            ctx.wf(),
        ensures
            r matches Err(LoadError::Unnamed) <==> file_stem_of(archive_path@) is None,
            r matches Err(e) ==> (e is Unnamed || e is Container),
            forall|ms: Seq<(Seq<char>, Seq<u8>)>| #[trigger] zip_bytes(ms) == bytes@ && members_fit(ms)
                ==> (file_stem_of(archive_path@) is Some ==> r is Ok),
            r matches Ok(l) ==> {
                &&& l.wf()
                &&& l.processed() == 0
                &&& !l.is_halted()
                &&& l.key_view() == ctx.key_view()
                &&& l.iv_view() == ctx.iv_view()
                &&& l.package_view() == entry_name(archive_path@)
                &&& forall|ms: Seq<(Seq<char>, Seq<u8>)>| #[trigger] zip_bytes(ms) == bytes@ && members_fit(ms) ==> l.members() == ms
            },
    {
        let package = match package_name(archive_path) {
            Some(p) => p,
            None => { return Err(LoadError::Unnamed); },
        };
        let entries = match read_container(bytes) {
            Some(es) => es,
            None => { return Err(LoadError::Container); },
        };
        let l = Loader { ctx, package, entries, next: 0, entry_source: None, halted: false, plains: Ghost(Seq::empty()) };
        assert(l.items() =~= Seq::empty());
        Ok(l)
    }

    /// The decrypted entries are the archive's first `processed()` entries, in
    /// stored order: each under its own name, with its decrypted text.
    pub open spec fn tracks_entries(&self) -> bool {
        &&& self.processed() <= self.members().len()
        &&& self.items().len() == self.processed()
        &&& forall|j: int| 0 <= j < self.processed() ==> {
            &&& (#[trigger] self.items()[j]).0 == self.members()[j].0
            &&& self.items()[j].1 == cbc_decrypted(self.key_view(), self.iv_view(), self.members()[j].1)
        }
    }

    /// `self` and `other` load the same archive into the same package under
    /// the same cipher.
    pub open spec fn same_load(&self, other: &Loader) -> bool {
        &&& self.key_view() == other.key_view()
        &&& self.iv_view() == other.iv_view()
        &&& self.package_view() == other.package_view()
        &&& self.members() == other.members()
    }

    proof fn lemma_defs_push(package: Seq<char>, items: Seq<(Seq<char>, Seq<u8>)>, x: (Seq<char>, Seq<u8>))
        ensures
            defs_of(package, items.push(x)) == (if x.0 == SENTINEL@ { defs_of(package, items) } else {
                defs_of(package, items).push(module_def(package, x.0, x.1)) }),
            entry_source_of(items.push(x)) == (if x.0 == SENTINEL@ { Some(x.1) } else { entry_source_of(items) }),
    {
        assert(items.push(x).drop_last() =~= items);
    }

    /// Takes the outcome of decrypting the next entry: its text, or `None`
    /// when it did not decrypt. A failure halts the load. An entry named by the
    /// sentinel is held back as the entry point and gives no step (`None`).
    /// Any other entry gives the module it defines.
    pub fn advance(&mut self, decoded: Option<Vec<u8>>) -> (r: Option<Step>)
        requires
            old(self).wf(),
            !old(self).is_halted(),
            old(self).processed() < old(self).members().len(),
            decoded matches Some(p) ==> p@ == cbc_decrypted(old(self).key_view(), old(self).iv_view(),
                old(self).members()[old(self).processed() as int].1),
            decoded matches Some(p) ==> forall|q: Seq<u8>|
                #[trigger] cbc_encrypted(old(self).key_view(), old(self).iv_view(), q)
                    == old(self).members()[old(self).processed() as int].1 ==> p@ == q,
        ensures
            final(self).wf(),
            final(self).same_load(old(self)),
            decoded is None ==> {
                &&& r matches Some(Step::Failed(LoadError::Decode(n)))
                &&& n@ == old(self).members()[old(self).processed() as int].0
                &&& final(self).is_halted()
                &&& final(self).processed() == old(self).processed()
                &&& final(self).items() == old(self).items()
            },
            decoded matches Some(p) ==> {
                &&& !final(self).is_halted()
                &&& final(self).processed() == old(self).processed() + 1
                &&& final(self).items() == old(self).items().push(
                        (old(self).members()[old(self).processed() as int].0, p@))
            },
            decoded is Some && old(self).members()[old(self).processed() as int].0 == SENTINEL@ ==> {
                &&& r is None
                &&& final(self).defined() == old(self).defined()
            },
            decoded matches Some(p) ==> (old(self).members()[old(self).processed() as int].0 != SENTINEL@ ==> {
                &&& r matches Some(Step::Define(d))
                &&& d@ == module_def(old(self).package_view(), old(self).members()[old(self).processed() as int].0, p@)
                &&& final(self).defined() == old(self).defined().push(d@)
            }),
    {
        let i = self.next;
        let ghost old_items = self.items();
        assert(members_of(self.entries@).len() == self.entries@.len());
        assert(i < self.entries.len());
        assert(self.entries@[i as int]@ == members_of(self.entries@)[i as int]);
        match decoded {
            None => {
                self.halted = true;
                Some(Step::Failed(LoadError::Decode(self.entries[i].name.clone())))
            },
            Some(p) => {
                let ghost pv = p@;
                let ghost name = self.entries@[i as int].name@;
                proof { Self::lemma_defs_push(self.package@, old_items, (name, pv)); }
                self.plains = Ghost(self.plains@.push(pv));
                self.next = i + 1;
                assert(self.items() =~= old_items.push((name, pv)));
                let sentinel = String::from_str(SENTINEL);
                if self.entries[i].name == sentinel {
                    self.entry_source = Some(p);
                    None
                } else {
                    let mut path = self.package.clone().concat("/");
                    path.append(self.entries[i].name.as_str());
                    let mut qualified = self.package.clone().concat(".");
                    qualified.append(self.entries[i].name.as_str());
                    let d = ModuleDef { name: self.entries[i].name.clone(), path, qualified, source: p };
                    proof {
                        reveal_strlit("/");
                        reveal_strlit(".");
                    }
                    assert(d.path@ =~= self.package@ + "/"@ + name);
                    assert(d.qualified@ =~= self.package@ + "."@ + name);
                    Some(Step::Define(d))
                }
            },
        }
    }

    /// The next step of the load. Entries are decrypted in stored order; each
    /// one that is not the sentinel gives the module it defines. When all are
    /// decrypted, the entry point is handed over for execution. An entry that
    /// does not decrypt halts the load; a halted loader defines nothing more.
    pub fn next_step(&mut self) -> (r: Step)
        requires
            old(self).wf(),
        ensures
            final(self).wf(),
            final(self).same_load(old(self)),
            old(self).is_halted() ==> r is Finished && final(self).items() == old(self).items() && final(self).is_halted(),
            final(self).processed() >= old(self).processed(),
            r matches Step::Define(d) ==> {
                &&& final(self).processed() >= 1
                &&& d@ == module_def(final(self).package_view(), final(self).members()[final(self).processed() - 1].0,
                        final(self).items()[final(self).processed() - 1].1)
            },
            r matches Step::Failed(_) ==> forall|q: Seq<u8>|
                #[trigger] cbc_encrypted(final(self).key_view(), final(self).iv_view(), q)
                    != final(self).members()[final(self).processed() as int].1,
            r matches Step::Define(d) ==> !final(self).is_halted() && final(self).defined() == old(self).defined().push(d@),
            !(r is Define) ==> final(self).is_halted() && final(self).defined() == old(self).defined(),
            r matches Step::Failed(e) ==> {
                &&& e matches LoadError::Decode(n)
                &&& final(self).processed() < final(self).members().len()
                &&& n@ == final(self).members()[final(self).processed() as int].0
            },
            r matches Step::Execute(s) ==> !old(self).is_halted()
                && final(self).processed() == final(self).members().len()
                && entry_source_of(final(self).items()) == Some(s@),
            (r is Finished && !old(self).is_halted()) ==> final(self).processed() == final(self).members().len()
                && entry_source_of(final(self).items()) is None,
    {
        if self.halted {
            return Step::Finished;
        }
        let ghost start = *self;
        while self.next < self.entries.len()
            invariant
                self.wf(),
                !self.is_halted(),
                start == *old(self),
                self.next >= start.next,
                !start.is_halted(),
                self.same_load(&start),
                self.defined() == start.defined(),
            decreases self.entries@.len() - self.next,
        {
            assert(members_of(self.entries@).len() == self.entries@.len());
            assert(self.entries@[self.next as int]@ == members_of(self.entries@)[self.next as int]);
            let ghost before = *self;
            let decoded = self.ctx.decrypt(self.entries[self.next].data.as_slice());
            let ghost ok = decoded is Some;
            match self.advance(decoded) {
                Some(step) => {
                    proof {
                        if ok {
                            let k = (self.next - 1) as int;
                            assert(self.items() == before.items().push((before.members()[k].0, self.items()[k].1)));
                        }
                    }
                    return step;
                },
                None => {},
            }
        }
        assert(members_of(self.entries@).len() == self.entries@.len());
        self.halted = true;
        match &self.entry_source {
            Some(s) => Step::Execute(s.clone()),
            None => Step::Finished,
        }
    }
}

/// The decrypted entries, (name, text) in order, that an archive of `fs`
/// should load as: one per regular file, named by its stem, holding its bytes.
pub open spec fn source_items(fs: Seq<SourceFile>) -> Seq<(Seq<char>, Seq<u8>)> {
    admitted(fs).map_values(|f: SourceFile| (entry_name(f.path@), f.content@))
}

/// Packing then loading gives the files back. In a loader opened on the
/// archive that `pack` wrote for `files`, every entry is the encryption of a
/// regular file's bytes, so no step fails; the entries decrypted so far hold
/// those files' bytes under their stems, in the order packed. Once every entry
/// is decrypted, it has defined one module per such file not named by the
/// sentinel, in that order, and its entry point is the last file named by the
/// sentinel.
pub proof fn lemma_pack_load_round_trip(files: Seq<SourceFile>, archive: Seq<u8>, l: Loader)
    requires
        archive == zip_bytes(packed_members(l.key_view(), l.iv_view(), files)),
        members_fit(packed_members(l.key_view(), l.iv_view(), files)),
        forall|ms: Seq<(Seq<char>, Seq<u8>)>| #[trigger] zip_bytes(ms) == archive && members_fit(ms) ==> l.members() == ms,
        l.wf(),
    ensures
        l.members().len() == admitted(files).len(),
        forall|j: int| 0 <= j < l.members().len() ==>
            cbc_encrypted(l.key_view(), l.iv_view(), admitted(files)[j].content@) == (#[trigger] l.members()[j]).1,
        l.items() == source_items(files).take(l.processed() as int),
        l.processed() == l.members().len() ==> {
            &&& l.items() == source_items(files)
            &&& l.defined() == defs_of(l.package_view(), source_items(files))
            &&& entry_source_of(l.items()) == entry_source_of(source_items(files))
        },
{
    let k = l.key_view();
    let v = l.iv_view();
    let pm = packed_members(k, v, files);
    assert(l.members() == pm);
    assert forall|j: int| 0 <= j < l.items().len() implies #[trigger] l.items()[j] == source_items(files)[j] by {
        let f = admitted(files)[j];
        assert(l.entries@[j]@ == members_of(l.entries@)[j]);
        assert(pm[j] == (entry_name(f.path@), cbc_encrypted(k, v, f.content@)));
        assert(cbc_encrypted(k, v, f.content@) == l.entries@[j].data@);
        assert(l.plains@[j] == f.content@);
    }
    assert forall|j: int| 0 <= j < l.members().len() implies
        cbc_encrypted(k, v, admitted(files)[j].content@) == (#[trigger] l.members()[j]).1 by {
        assert(pm[j] == (entry_name(admitted(files)[j].path@), cbc_encrypted(k, v, admitted(files)[j].content@)));
    }
    assert(l.items() =~= source_items(files).take(l.processed() as int));
    if l.processed() == l.members().len() {
        assert(l.items() =~= source_items(files));
    }
}

/// No entry named by the sentinel defines a module.
pub proof fn lemma_sentinel_never_defined(package: Seq<char>, items: Seq<(Seq<char>, Seq<u8>)>)
    ensures
        forall|i: int| 0 <= i < defs_of(package, items).len() ==> (#[trigger] defs_of(package, items)[i]).0 != SENTINEL@,
    decreases items.len(),
{
    if items.len() > 0 {
        let pre = items.drop_last();
        lemma_sentinel_never_defined(package, pre);
        let d = defs_of(package, items);
        assert forall|i: int| 0 <= i < d.len() implies (#[trigger] d[i]).0 != SENTINEL@ by {
            if i < defs_of(package, pre).len() {
                assert(d[i] == defs_of(package, pre)[i]);
            }
        }
    }
}

/// At most one entry named by the sentinel is honoured: the last one. The
/// entry point, when there is one, is the text of a sentinel entry that no
/// later sentinel entry follows; with no sentinel entry there is none.
pub proof fn lemma_last_sentinel_wins(items: Seq<(Seq<char>, Seq<u8>)>)
    ensures
        entry_source_of(items) is None <==> forall|j: int| 0 <= j < items.len() ==> (#[trigger] items[j]).0 != SENTINEL@,
        entry_source_of(items) matches Some(t) ==> exists|j: int| 0 <= j < items.len()
            && (#[trigger] items[j]).0 == SENTINEL@ && items[j].1 == t
            && forall|k: int| j < k < items.len() ==> (#[trigger] items[k]).0 != SENTINEL@,
    decreases items.len(),
{
    if items.len() > 0 {
        let pre = items.drop_last();
        lemma_last_sentinel_wins(pre);
        assert forall|j: int| 0 <= j < pre.len() implies #[trigger] pre[j] == items[j] by {}
        if items.last().0 == SENTINEL@ {
            assert(items[items.len() - 1].0 == SENTINEL@);
        } else if let Some(t) = entry_source_of(pre) {
            let j = choose|j: int| 0 <= j < pre.len()
                && (#[trigger] pre[j]).0 == SENTINEL@ && pre[j].1 == t
                && forall|k: int| j < k < pre.len() ==> (#[trigger] pre[k]).0 != SENTINEL@;
            assert(items[j] == pre[j]);
            assert forall|k: int| j < k < items.len() implies (#[trigger] items[k]).0 != SENTINEL@ by {
                if k < pre.len() {
                    assert(items[k] == pre[k]);
                }
            }
        } else {
            assert forall|k: int| 0 <= k < items.len() implies (#[trigger] items[k]).0 != SENTINEL@ by {
                if k < pre.len() {
                    assert(items[k] == pre[k]);
                }
            }
        }
    }
}

/// A well-formed loader's decrypted entries are the archive's entries, in
/// stored order (see `tracks_entries`).
pub proof fn lemma_loader_tracks_entries(l: &Loader)
    requires
        l.wf(),
    ensures
        l.tracks_entries(),
{
    assert forall|j: int| 0 <= j < l.processed() implies {
        &&& (#[trigger] l.items()[j]).0 == l.members()[j].0
        &&& l.items()[j].1 == cbc_decrypted(l.key_view(), l.iv_view(), l.members()[j].1)
    } by {
        assert(l.entries@[j]@ == members_of(l.entries@)[j]);
    }
}

} // verus!
