//! The archive-expansion planner. Given the metadata of an archive's
//! entries — the safely resolved relative path of each, whether it is a
//! directory, and its permission bits where recorded — it plans the exact
//! sequence of filesystem steps that expands the archive under a
//! destination: directories are created (intermediate ones included before
//! each file), file contents are written entry by entry, and permission
//! bits are applied where present. An entry whose path could not be
//! resolved safely is rejected.
use vstd::prelude::*;

verus! {

/// The metadata of one archive entry, by position in the archive.
/// `rel_path` is the entry's safely resolved relative path, by components;
/// `None` when the entry's name does not resolve to a path enclosed in the
/// destination. `mode_bits` carries the entry's recorded permission bits,
/// where the archive stores any.
#[derive(Debug)]
pub struct EntryMeta {
    pub rel_path: Option<Vec<String>>,
    pub is_dir: bool,
    pub mode_bits: Option<u32>,
}

pub struct EntryMetaView {
    pub rel_path: Option<Seq<Seq<char>>>,
    pub is_dir: bool,
    pub mode_bits: Option<u32>,
}

impl DeepView for EntryMeta {
    type V = EntryMetaView;

    open spec fn deep_view(&self) -> EntryMetaView {
        EntryMetaView {
            rel_path: match self.rel_path {
                Some(p) => Some(p.deep_view()),
                None => None,
            },
            is_dir: self.is_dir,
            mode_bits: self.mode_bits,
        }
    }
}

/// One filesystem step of an expansion, with paths relative to the
/// destination directory, by components.
#[derive(Debug)]
pub enum FsOp {
    /// Create this directory and every missing one above it.
    MakeDirs { rel_path: Vec<String> },
    /// Write the contents of the archive entry at `entry_index` to this
    /// path, creating or truncating the file.
    WriteFile { rel_path: Vec<String>, entry_index: usize },
    /// Apply the recorded permission bits to this path, where the platform
    /// supports them.
    SetMode { rel_path: Vec<String>, mode_bits: u32 },
}

pub enum FsOpView {
    MakeDirs { rel_path: Seq<Seq<char>> },
    WriteFile { rel_path: Seq<Seq<char>>, entry_index: int },
    SetMode { rel_path: Seq<Seq<char>>, mode_bits: u32 },
}

impl DeepView for FsOp {
    type V = FsOpView;

    open spec fn deep_view(&self) -> FsOpView {
        match self {
            FsOp::MakeDirs { rel_path } => FsOpView::MakeDirs { rel_path: rel_path.deep_view() },
            FsOp::WriteFile { rel_path, entry_index } => FsOpView::WriteFile {
                rel_path: rel_path.deep_view(),
                entry_index: *entry_index as int,
            },
            FsOp::SetMode { rel_path, mode_bits } => FsOpView::SetMode {
                rel_path: rel_path.deep_view(),
                mode_bits: *mode_bits,
            },
        }
    }
}

/// An entry whose path cannot be resolved safely; `index` is its position
/// in the archive.
#[derive(Debug)]
pub struct ExpandError {
    pub index: usize,
}

pub struct ExpandErrorView {
    pub index: int,
}

impl DeepView for ExpandError {
    type V = ExpandErrorView;

    open spec fn deep_view(&self) -> ExpandErrorView {
        ExpandErrorView { index: self.index as int }
    }
}

/// The parent of a path given by components: the path without its last
/// component.
pub open spec fn parent_of(p: Seq<Seq<char>>) -> Seq<Seq<char>> {
    if p.len() > 0 {
        p.drop_last()
    } else {
        p
    }
}

/// The steps that expand one entry: a directory entry creates its
/// directory; a file entry creates its parent directories and writes its
/// contents; recorded permission bits are applied afterwards either way.
pub open spec fn entry_ops(e: EntryMetaView, i: int) -> Result<Seq<FsOpView>, ExpandErrorView> {
    match e.rel_path {
        None => Err(ExpandErrorView { index: i }),
        Some(p) => {
            let base = if e.is_dir {
                seq![FsOpView::MakeDirs { rel_path: p }]
            } else {
                seq![
                    FsOpView::MakeDirs { rel_path: parent_of(p) },
                    FsOpView::WriteFile { rel_path: p, entry_index: i },
                ]
            };
            match e.mode_bits {
                Some(m) => Ok(base.push(FsOpView::SetMode { rel_path: p, mode_bits: m })),
                None => Ok(base),
            }
        },
    }
}

/// The steps of all entries from position `base` on, in archive order; the
/// first unsafe entry aborts the plan.
pub open spec fn expand_ops(entries: Seq<EntryMetaView>, base: int) -> Result<
    Seq<FsOpView>,
    ExpandErrorView,
>
    decreases entries.len(),
{
    if entries.len() == 0 {
        Ok(Seq::empty())
    } else {
        match entry_ops(entries[0], base) {
            Err(e) => Err(e),
            Ok(ops) => match expand_ops(entries.drop_first(), base + 1) {
                Err(e) => Err(e),
                Ok(rest) => Ok(ops + rest),
            },
        }
    }
}

/// The whole expansion plan of an archive.
pub open spec fn spec_expand(entries: Seq<EntryMetaView>) -> Result<
    Seq<FsOpView>,
    ExpandErrorView,
> {
    expand_ops(entries, 0)
}

/// Copy a path's components.
fn clone_path(p: &Vec<String>) -> (r: Vec<String>)
    ensures
        r.deep_view() == p.deep_view(),
{
    let mut out: Vec<String> = Vec::new();
    let mut i: usize = 0;
    while i < p.len()
        invariant
            0 <= i <= p.len(),
            out.deep_view() =~= p.deep_view().take(i as int),
        decreases p.len() - i,
    {
        let ghost pre = out.deep_view();
        let c = p[i].clone();
        proof {
            assert(c@ == p.deep_view()[i as int]);
        }
        out.push(c);
        proof {
            assert(out.deep_view() =~= pre.push(p.deep_view()[i as int]));
            assert(pre.push(p.deep_view()[i as int]) =~= p.deep_view().take(i as int + 1));
        }
        i += 1;
    }
    proof {
        assert(p.deep_view().take(p.len() as int) =~= p.deep_view());
    }
    out
}

/// The steps that expand one entry (see `entry_ops`).
#[verifier::loop_isolation(false)]
fn plan_entry(e: &EntryMeta, i: usize) -> (r: Result<Vec<FsOp>, ExpandError>)
    ensures
        match r {
            Ok(ops) => entry_ops(e.deep_view(), i as int) == Ok::<Seq<FsOpView>, ExpandErrorView>(
                ops.deep_view(),
            ),
            Err(err) => entry_ops(e.deep_view(), i as int) == Err::<
                Seq<FsOpView>,
                ExpandErrorView,
            >(err.deep_view()),
        },
{
    match &e.rel_path {
        None => Err(ExpandError { index: i }),
        Some(p) => {
            let mut ops: Vec<FsOp> = Vec::new();
            if e.is_dir {
                ops.push(FsOp::MakeDirs { rel_path: clone_path(p) });
            } else {
                let mut parent = clone_path(p);
                if parent.len() > 0 {
                    parent.pop();
                }
                proof {
                    assert(parent.deep_view() =~= parent_of(p.deep_view()));
                }
                ops.push(FsOp::MakeDirs { rel_path: parent });
                ops.push(FsOp::WriteFile { rel_path: clone_path(p), entry_index: i });
            }
            match e.mode_bits {
                Some(m) => {
                    ops.push(FsOp::SetMode { rel_path: clone_path(p), mode_bits: m });
                },
                None => {},
            }
            proof {
                assert(ops.deep_view() =~= entry_ops(e.deep_view(), i as int)->Ok_0);
            }
            Ok(ops)
        },
    }
}

/// Plan the expansion of an archive under a destination: the filesystem
/// steps of every entry, in archive order, or the position of the first
/// entry whose path cannot be resolved safely.
#[verifier::loop_isolation(false)]
pub fn expand_plan(entries: &Vec<EntryMeta>) -> (r: Result<Vec<FsOp>, ExpandError>)
    ensures
        match r {
            Ok(ops) => spec_expand(entries.deep_view()) == Ok::<Seq<FsOpView>, ExpandErrorView>(
                ops.deep_view(),
            ),
            Err(e) => spec_expand(entries.deep_view()) == Err::<Seq<FsOpView>, ExpandErrorView>(
                e.deep_view(),
            ),
        },
{
    let ghost full = entries.deep_view();
    let mut ops: Vec<FsOp> = Vec::new();
    let mut i: usize = 0;
    proof {
        assert(full.skip(0) =~= full);
        if let Ok(q) = expand_ops(full, 0) {
            assert(Seq::<FsOpView>::empty() + q =~= q);
        }
    }
    while i < entries.len()
        invariant
            0 <= i <= entries.len(),
            match expand_ops(full.skip(i as int), i as int) {
                Ok(q) => spec_expand(full) == Ok::<Seq<FsOpView>, ExpandErrorView>(
                    ops.deep_view() + q,
                ),
                Err(e) => spec_expand(full) == Err::<Seq<FsOpView>, ExpandErrorView>(e),
            },
        decreases entries.len() - i,
    {
        proof {
            let rem = full.skip(i as int);
            assert(rem[0] == full[i as int]);
            assert(rem.drop_first() =~= full.skip(i as int + 1));
            assert(entries[i as int].deep_view() == full[i as int]);
        }
        let ghost pre = ops.deep_view();
        match plan_entry(&entries[i], i) {
            Err(e) => {
                return Err(e);
            },
            Ok(mut here) => {
                let ghost hv = here.deep_view();
                ops.append(&mut here);
                proof {
                    assert(ops.deep_view() =~= pre + hv);
                    match expand_ops(full.skip(i as int + 1), i as int + 1) {
                        Err(e) => {},
                        Ok(q) => {
                            assert(pre + (hv + q) =~= (pre + hv) + q);
                        },
                    }
                }
            },
        }
        i += 1;
    }
    proof {
        assert(full.skip(entries.len() as int) =~= Seq::<EntryMetaView>::empty());
        assert(ops.deep_view() + Seq::<FsOpView>::empty() =~= ops.deep_view());
    }
    Ok(ops)
}

/// A planned write is faithful to the archive: it takes its contents from
/// the entry at its own archive position and puts them at that entry's own
/// stored path.
pub open spec fn write_op_sound(entries: Seq<EntryMetaView>, base: int, op: FsOpView) -> bool {
    op matches FsOpView::WriteFile { rel_path, entry_index } ==> {
        &&& base <= entry_index < base + entries.len()
        &&& !entries[entry_index - base].is_dir
        &&& entries[entry_index - base].rel_path == Some(rel_path)
    }
}

/// In a successful plan every write is faithful (see `write_op_sound`):
/// carrying the plan out writes nothing but the archive's stored files,
/// each byte-for-byte from its own entry, at its own path.
pub proof fn lemma_expand_writes_sound(entries: Seq<EntryMetaView>, base: int)
    ensures
        expand_ops(entries, base) matches Ok(ops) ==> forall|t: int|
            0 <= t < ops.len() ==> write_op_sound(entries, base, #[trigger] ops[t]),
    decreases entries.len(),
{
    if entries.len() == 0 {
    } else if expand_ops(entries, base) is Ok {
        let e0 = entries[0];
        let ops0 = entry_ops(e0, base)->Ok_0;
        let rest = entries.drop_first();
        let opsr = expand_ops(rest, base + 1)->Ok_0;
        let ops = expand_ops(entries, base)->Ok_0;
        assert(ops == ops0 + opsr);
        lemma_expand_writes_sound(rest, base + 1);
        assert forall|t: int| 0 <= t < ops.len() implies write_op_sound(
            entries,
            base,
            #[trigger] ops[t],
        ) by {
            if t < ops0.len() {
                assert(ops[t] == ops0[t]);
            } else {
                assert(ops[t] == opsr[t - ops0.len()]);
                assert(write_op_sound(rest, base + 1, opsr[t - ops0.len()]));
                if let FsOpView::WriteFile { rel_path, entry_index } = ops[t] {
                    assert(rest[entry_index - base - 1] == entries[entry_index - base]);
                }
            }
        }
    }
}

/// In a successful plan every stored file is written: the plan holds a
/// write of entry `base + k`'s contents to its stored path, for each file
/// entry `k`.
pub proof fn lemma_expand_writes_complete(entries: Seq<EntryMetaView>, base: int)
    ensures
        expand_ops(entries, base) matches Ok(ops) ==> forall|k: int|
            0 <= k < entries.len() && !(#[trigger] entries[k]).is_dir ==> exists|t: int|
                0 <= t < ops.len() && ops[t] == (FsOpView::WriteFile {
                    rel_path: entries[k].rel_path->Some_0,
                    entry_index: base + k,
                }),
    decreases entries.len(),
{
    if entries.len() == 0 {
    } else if expand_ops(entries, base) is Ok {
        let e0 = entries[0];
        let ops0 = entry_ops(e0, base)->Ok_0;
        let rest = entries.drop_first();
        let opsr = expand_ops(rest, base + 1)->Ok_0;
        let ops = expand_ops(entries, base)->Ok_0;
        assert(ops == ops0 + opsr);
        lemma_expand_writes_complete(rest, base + 1);
        assert forall|k: int|
            0 <= k < entries.len() && !(#[trigger] entries[k]).is_dir implies exists|t: int|
            0 <= t < ops.len() && ops[t] == (FsOpView::WriteFile {
                rel_path: entries[k].rel_path->Some_0,
                entry_index: base + k,
            }) by {
            if k == 0 {
                assert(ops[1] == ops0[1]);
                assert(ops0[1] == (FsOpView::WriteFile {
                    rel_path: e0.rel_path->Some_0,
                    entry_index: base,
                }));
            } else {
                assert(rest[k - 1] == entries[k]);
                let t0 = choose|t: int|
                    0 <= t < opsr.len() && opsr[t] == (FsOpView::WriteFile {
                        rel_path: rest[k - 1].rel_path->Some_0,
                        entry_index: base + 1 + (k - 1),
                    });
                assert(ops[ops0.len() + t0] == opsr[t0]);
            }
        }
    }
}

/// In a successful plan every recorded permission is applied: the plan
/// holds a permission step with entry `k`'s recorded bits at its stored
/// path, for each entry that records any.
pub proof fn lemma_expand_modes_complete(entries: Seq<EntryMetaView>, base: int)
    ensures
        expand_ops(entries, base) matches Ok(ops) ==> forall|k: int|
            0 <= k < entries.len() && (#[trigger] entries[k]).mode_bits is Some ==> exists|t: int|
                0 <= t < ops.len() && ops[t] == (FsOpView::SetMode {
                    rel_path: entries[k].rel_path->Some_0,
                    mode_bits: entries[k].mode_bits->Some_0,
                }),
    decreases entries.len(),
{
    if entries.len() == 0 {
    } else if expand_ops(entries, base) is Ok {
        let e0 = entries[0];
        let ops0 = entry_ops(e0, base)->Ok_0;
        let rest = entries.drop_first();
        let opsr = expand_ops(rest, base + 1)->Ok_0;
        let ops = expand_ops(entries, base)->Ok_0;
        assert(ops == ops0 + opsr);
        lemma_expand_modes_complete(rest, base + 1);
        assert forall|k: int|
            0 <= k < entries.len() && (#[trigger] entries[k]).mode_bits is Some implies exists|
            t: int,
        |
            0 <= t < ops.len() && ops[t] == (FsOpView::SetMode {
                rel_path: entries[k].rel_path->Some_0,
                mode_bits: entries[k].mode_bits->Some_0,
            }) by {
            if k == 0 {
                let last = ops0.len() - 1;
                assert(ops[last] == ops0[last]);
                assert(ops0[last] == (FsOpView::SetMode {
                    rel_path: e0.rel_path->Some_0,
                    mode_bits: e0.mode_bits->Some_0,
                }));
            } else {
                assert(rest[k - 1] == entries[k]);
                let t0 = choose|t: int|
                    0 <= t < opsr.len() && opsr[t] == (FsOpView::SetMode {
                        rel_path: rest[k - 1].rel_path->Some_0,
                        mode_bits: rest[k - 1].mode_bits->Some_0,
                    });
                assert(ops[ops0.len() + t0] == opsr[t0]);
            }
        }
    }
}

} // verus!
