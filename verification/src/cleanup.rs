//! The post-pass cleanup planner. Over the output tree it plans, first, the
//! removal of the known junk directory ("__MACOSX") inside every
//! matched-entry subdirectory, and second — on the children that remain —
//! checks that each matched-entry subdirectory holds exactly one nested
//! directory and plans the removal of that directory's nested "out"
//! build-output folder. More than one remaining child is a structural
//! violation.
use vstd::prelude::*;

use crate::router::{consume_entry, remove_entry};
use crate::text::str_eq;

verus! {

/// One matched-entry subdirectory of the output tree, with the names of
/// the entries it holds.
#[derive(Debug)]
pub struct EntryDirListing {
    pub name: String,
    pub children: Vec<String>,
}

/// One per-filter-list subtree of the output tree.
#[derive(Debug)]
pub struct OutSubtree {
    pub name: String,
    pub entries: Vec<EntryDirListing>,
}

pub struct EntryDirView {
    pub name: Seq<char>,
    pub children: Seq<Seq<char>>,
}

pub struct SubtreeView {
    pub name: Seq<char>,
    pub entries: Seq<EntryDirView>,
}

impl DeepView for EntryDirListing {
    type V = EntryDirView;

    open spec fn deep_view(&self) -> EntryDirView {
        EntryDirView { name: self.name@, children: self.children.deep_view() }
    }
}

impl DeepView for OutSubtree {
    type V = SubtreeView;

    open spec fn deep_view(&self) -> SubtreeView {
        SubtreeView { name: self.name@, entries: self.entries.deep_view() }
    }
}

/// One planned removal, as path components under the output root.
#[derive(Debug)]
pub struct RemoveOp {
    pub path: Vec<String>,
}

impl DeepView for RemoveOp {
    type V = Seq<Seq<char>>;

    open spec fn deep_view(&self) -> Seq<Seq<char>> {
        self.path.deep_view()
    }
}

/// A matched-entry subdirectory held more than one nested entry after junk
/// removal; `extra` names the surplus one.
#[derive(Debug)]
pub struct CleanupError {
    pub subtree: String,
    pub entry: String,
    pub extra: String,
}

pub struct CleanupErrorView {
    pub subtree: Seq<char>,
    pub entry: Seq<char>,
    pub extra: Seq<char>,
}

impl DeepView for CleanupError {
    type V = CleanupErrorView;

    open spec fn deep_view(&self) -> CleanupErrorView {
        CleanupErrorView { subtree: self.subtree@, entry: self.entry@, extra: self.extra@ }
    }
}

/// The name of the junk directory an extraction tool leaves behind.
pub open spec fn junk_name() -> Seq<char> {
    seq!['_', '_', 'M', 'A', 'C', 'O', 'S', 'X']
}

/// The name of the nested build-output directory dropped during cleanup.
pub open spec fn out_name() -> Seq<char> {
    seq!['o', 'u', 't']
}

pub open spec fn holds_name(children: Seq<Seq<char>>, t: Seq<char>) -> bool {
    exists|k: int| 0 <= k < children.len() && children[k] == t
}

/// First pass over one matched-entry subdirectory: its junk directory, if
/// present, is removed.
pub open spec fn junk_ops_entry(lab: Seq<char>, e: EntryDirView) -> Seq<Seq<Seq<char>>> {
    if holds_name(e.children, junk_name()) {
        seq![seq![lab, e.name, junk_name()]]
    } else {
        Seq::empty()
    }
}

pub open spec fn junk_ops_entries(lab: Seq<char>, es: Seq<EntryDirView>) -> Seq<Seq<Seq<char>>>
    decreases es.len(),
{
    if es.len() == 0 {
        Seq::empty()
    } else {
        junk_ops_entry(lab, es[0]) + junk_ops_entries(lab, es.drop_first())
    }
}

pub open spec fn junk_ops(ts: Seq<SubtreeView>) -> Seq<Seq<Seq<char>>>
    decreases ts.len(),
{
    if ts.len() == 0 {
        Seq::empty()
    } else {
        junk_ops_entries(ts[0].name, ts[0].entries) + junk_ops(ts.drop_first())
    }
}

/// Second pass over one matched-entry subdirectory: of the children other
/// than the junk directory there must be exactly one at most; when there is
/// one, its nested "out" folder is removed.
pub open spec fn out_ops_entry(lab: Seq<char>, e: EntryDirView) -> Result<
    Seq<Seq<Seq<char>>>,
    CleanupErrorView,
> {
    let rem = remove_entry(e.children, junk_name());
    if rem.len() >= 2 {
        Err(CleanupErrorView { subtree: lab, entry: e.name, extra: rem[1] })
    } else if rem.len() == 1 {
        Ok(seq![seq![lab, e.name, rem[0], out_name()]])
    } else {
        Ok(Seq::empty())
    }
}

pub open spec fn out_ops_entries(lab: Seq<char>, es: Seq<EntryDirView>) -> Result<
    Seq<Seq<Seq<char>>>,
    CleanupErrorView,
>
    decreases es.len(),
{
    if es.len() == 0 {
        Ok(Seq::empty())
    } else {
        match out_ops_entry(lab, es[0]) {
            Err(e) => Err(e),
            Ok(p) => match out_ops_entries(lab, es.drop_first()) {
                Err(e) => Err(e),
                Ok(q) => Ok(p + q),
            },
        }
    }
}

pub open spec fn out_ops(ts: Seq<SubtreeView>) -> Result<Seq<Seq<Seq<char>>>, CleanupErrorView>
    decreases ts.len(),
{
    if ts.len() == 0 {
        Ok(Seq::empty())
    } else {
        match out_ops_entries(ts[0].name, ts[0].entries) {
            Err(e) => Err(e),
            Ok(p) => match out_ops(ts.drop_first()) {
                Err(e) => Err(e),
                Ok(q) => Ok(p + q),
            },
        }
    }
}

/// The whole cleanup pass: every junk removal, then every build-output
/// removal, or the first structural violation.
pub open spec fn spec_cleanup(ts: Seq<SubtreeView>) -> Result<
    Seq<Seq<Seq<char>>>,
    CleanupErrorView,
> {
    match out_ops(ts) {
        Err(e) => Err(e),
        Ok(p2) => Ok(junk_ops(ts) + p2),
    }
}

/// Scan one matched-entry subdirectory for the junk directory.
#[verifier::loop_isolation(false)]
fn scan_junk(lab: &String, e: &EntryDirListing) -> (r: Option<RemoveOp>)
    ensures
        match r {
            Some(op) => junk_ops_entry(lab@, e.deep_view()) == seq![op.deep_view()],
            None => junk_ops_entry(lab@, e.deep_view()) == Seq::<Seq<Seq<char>>>::empty(),
        },
{
    proof {
        reveal_strlit("__MACOSX");
        assert("__MACOSX"@ =~= junk_name());
    }
    let ghost cv = e.children.deep_view();
    let mut found = false;
    let mut i: usize = 0;
    while i < e.children.len()
        invariant
            cv == e.children.deep_view(),
            cv.len() == e.children.len(),
            0 <= i <= e.children.len(),
            found == exists|k: int| 0 <= k < i && cv[k] == junk_name(),
        decreases e.children.len() - i,
    {
        proof {
            assert(cv[i as int] == e.children[i as int]@);
        }
        if str_eq(e.children[i].as_str(), "__MACOSX") {
            found = true;
        }
        i += 1;
    }
    if found {
        let mut path: Vec<String> = Vec::new();
        path.push(lab.clone());
        path.push(e.name.clone());
        path.push("__MACOSX".to_owned());
        let op = RemoveOp { path };
        proof {
            assert(op.deep_view() =~= seq![lab@, e.name@, junk_name()]);
        }
        Some(op)
    } else {
        None
    }
}

/// Check one matched-entry subdirectory and plan its build-output removal.
fn scan_out(lab: &String, e: &EntryDirListing) -> (r: Result<Option<RemoveOp>, CleanupError>)
    ensures
        match r {
            Ok(Some(op)) => out_ops_entry(lab@, e.deep_view()) == Ok::<
                Seq<Seq<Seq<char>>>,
                CleanupErrorView,
            >(seq![op.deep_view()]),
            Ok(None) => out_ops_entry(lab@, e.deep_view()) == Ok::<
                Seq<Seq<Seq<char>>>,
                CleanupErrorView,
            >(Seq::<Seq<Seq<char>>>::empty()),
            Err(err) => out_ops_entry(lab@, e.deep_view()) == Err::<
                Seq<Seq<Seq<char>>>,
                CleanupErrorView,
            >(err.deep_view()),
        },
{
    proof {
        reveal_strlit("__MACOSX");
        assert("__MACOSX"@ =~= junk_name());
    }
    let junk: String = "__MACOSX".to_owned();
    let rem = consume_entry(&e.children, &junk);
    if rem.len() >= 2 {
        proof {
            assert(rem.deep_view()[1] == rem[1]@);
        }
        Err(
            CleanupError { subtree: lab.clone(), entry: e.name.clone(), extra: rem[1].clone() },
        )
    } else if rem.len() == 1 {
        proof {
            assert(rem.deep_view()[0] == rem[0]@);
        }
        let mut path: Vec<String> = Vec::new();
        path.push(lab.clone());
        path.push(e.name.clone());
        path.push(rem[0].clone());
        path.push("out".to_owned());
        let op = RemoveOp { path };
        proof {
            reveal_strlit("out");
            assert("out"@ =~= out_name());
            assert(op.deep_view() =~= seq![
                lab@,
                e.name@,
                remove_entry(e.children.deep_view(), junk_name())[0],
                out_name(),
            ]);
        }
        Ok(Some(op))
    } else {
        Ok(None)
    }
}

/// Plan the cleanup pass over the listed output tree: first every junk
/// removal, then — where each matched-entry subdirectory holds exactly one
/// remaining child — the removal of that child's "out" folder. Every
/// planned removal targets a "__MACOSX" or an "out" directory and nothing
/// else; a matched-entry subdirectory with more than one remaining child is
/// reported as a structural violation instead.
#[verifier::loop_isolation(false)]
pub fn cleanup_plan(tree: &Vec<OutSubtree>) -> (r: Result<Vec<RemoveOp>, CleanupError>)
    ensures
        match r {
            Ok(ops) => spec_cleanup(tree.deep_view()) == Ok::<
                Seq<Seq<Seq<char>>>,
                CleanupErrorView,
            >(ops.deep_view()) && forall|k: int|
                0 <= k < ops.len() ==> (#[trigger] ops.deep_view()[k]).len() > 0 && (
                ops.deep_view()[k].last() == junk_name() || ops.deep_view()[k].last()
                    == out_name()),
            Err(e) => spec_cleanup(tree.deep_view()) == Err::<
                Seq<Seq<Seq<char>>>,
                CleanupErrorView,
            >(e.deep_view()),
        },
{
    let ghost tv = tree.deep_view();
    let mut ops: Vec<RemoveOp> = Vec::new();
    let mut i: usize = 0;
    proof {
        assert(tv.skip(0) =~= tv);
        assert(ops.deep_view() + junk_ops(tv) =~= junk_ops(tv));
    }
    while i < tree.len()
        invariant
            tv == tree.deep_view(),
            tv.len() == tree.len(),
            0 <= i <= tree.len(),
            junk_ops(tv) == ops.deep_view() + junk_ops(tv.skip(i as int)),
            forall|k: int|
                0 <= k < ops.len() ==> (#[trigger] ops.deep_view()[k]).len() > 0 && (
                ops.deep_view()[k].last() == junk_name() || ops.deep_view()[k].last()
                    == out_name()),
        decreases tree.len() - i,
    {
        proof {
            let rem = tv.skip(i as int);
            assert(rem[0] == tv[i as int]);
            assert(rem.drop_first() =~= tv.skip(i as int + 1));
            assert(tree[i as int].deep_view() == tv[i as int]);
        }
        let t = &tree[i];
        let ghost ev = t.entries.deep_view();
        let mut j: usize = 0;
        proof {
            assert(ev.skip(0) =~= ev);
            assert(ops.deep_view() + (junk_ops_entries(tv[i as int].name, ev) + junk_ops(
                tv.skip(i as int + 1),
            )) =~= (ops.deep_view() + junk_ops_entries(tv[i as int].name, ev)) + junk_ops(
                tv.skip(i as int + 1),
            ));
        }
        while j < t.entries.len()
            invariant
                tv == tree.deep_view(),
                tv.len() == tree.len(),
                0 <= i < tree.len(),
                ev == tree[i as int].entries.deep_view(),
                ev.len() == tree[i as int].entries.len(),
                0 <= j <= ev.len(),
                junk_ops(tv) == (ops.deep_view() + junk_ops_entries(
                    tv[i as int].name,
                    ev.skip(j as int),
                )) + junk_ops(tv.skip(i as int + 1)),
                forall|k: int|
                    0 <= k < ops.len() ==> (#[trigger] ops.deep_view()[k]).len() > 0 && (
                    ops.deep_view()[k].last() == junk_name() || ops.deep_view()[k].last()
                        == out_name()),
            decreases t.entries.len() - j,
        {
            proof {
                let rem = ev.skip(j as int);
                assert(rem[0] == ev[j as int]);
                assert(rem.drop_first() =~= ev.skip(j as int + 1));
                assert(tree[i as int].entries[j as int].deep_view() == ev[j as int]);
            }
            let ghost pre = ops.deep_view();
            match scan_junk(&t.name, &t.entries[j]) {
                Some(op) => {
                    proof {
                        let p = junk_ops_entry(tv[i as int].name, ev[j as int]);
                        assert(p[0] == op.deep_view());
                        assert(p.len() == 1);
                        assert(p[0] =~= seq![tv[i as int].name, ev[j as int].name, junk_name()]);
                        assert(op.deep_view().len() == 3);
                        assert(op.deep_view().last() == junk_name());
                    }
                    ops.push(op);
                    proof {
                        assert(ops.deep_view() =~= pre + junk_ops_entry(
                            tv[i as int].name,
                            ev[j as int],
                        ));
                        assert((pre + junk_ops_entry(tv[i as int].name, ev[j as int]))
                            + junk_ops_entries(tv[i as int].name, ev.skip(j as int + 1)) =~= pre + (
                        junk_ops_entry(tv[i as int].name, ev[j as int]) + junk_ops_entries(
                            tv[i as int].name,
                            ev.skip(j as int + 1),
                        )));
                    }
                },
                None => {
                    proof {
                        assert(pre + (junk_ops_entry(tv[i as int].name, ev[j as int])
                            + junk_ops_entries(tv[i as int].name, ev.skip(j as int + 1))) =~= pre
                            + junk_ops_entries(tv[i as int].name, ev.skip(j as int + 1)));
                    }
                },
            }
            j += 1;
        }
        proof {
            assert(ev.skip(ev.len() as int) =~= Seq::<EntryDirView>::empty());
            assert((ops.deep_view() + Seq::<Seq<Seq<char>>>::empty()) =~= ops.deep_view());
        }
        i += 1;
    }
    proof {
        assert(tv.skip(tree.len() as int) =~= Seq::<SubtreeView>::empty());
        assert(ops.deep_view() + Seq::<Seq<Seq<char>>>::empty() =~= ops.deep_view());
        assert(junk_ops(tv) == ops.deep_view());
    }
    let ghost junk_part = ops.deep_view();
    let mut i2: usize = 0;
    proof {
        assert(tv.skip(0) =~= tv);
        assert(ops.deep_view().take(junk_part.len() as int) =~= junk_part);
        assert(ops.deep_view().skip(junk_part.len() as int) =~= Seq::<Seq<Seq<char>>>::empty());
        if let Ok(q) = out_ops(tv) {
            assert(Seq::<Seq<Seq<char>>>::empty() + q =~= q);
        }
    }
    while i2 < tree.len()
        invariant
            tv == tree.deep_view(),
            tv.len() == tree.len(),
            0 <= i2 <= tree.len(),
            junk_part == junk_ops(tv),
            junk_part.len() <= ops.len(),
            match out_ops(tv.skip(i2 as int)) {
                Ok(q) => out_ops(tv) == Ok::<Seq<Seq<Seq<char>>>, CleanupErrorView>(
                    ops.deep_view().skip(junk_part.len() as int) + q,
                ),
                Err(e) => out_ops(tv) == Err::<Seq<Seq<Seq<char>>>, CleanupErrorView>(e),
            },
            ops.deep_view().take(junk_part.len() as int) == junk_part,
            forall|k: int|
                0 <= k < ops.len() ==> (#[trigger] ops.deep_view()[k]).len() > 0 && (
                ops.deep_view()[k].last() == junk_name() || ops.deep_view()[k].last()
                    == out_name()),
        decreases tree.len() - i2,
    {
        proof {
            let rem = tv.skip(i2 as int);
            assert(rem[0] == tv[i2 as int]);
            assert(rem.drop_first() =~= tv.skip(i2 as int + 1));
            assert(tree[i2 as int].deep_view() == tv[i2 as int]);
        }
        let t = &tree[i2];
        let ghost ev = t.entries.deep_view();
        let mut j2: usize = 0;
        proof {
            assert(ev.skip(0) =~= ev);
            let acc = ops.deep_view().skip(junk_part.len() as int);
            match out_ops_entries(tv[i2 as int].name, ev) {
                Err(e) => {},
                Ok(qe) => {
                    match out_ops(tv.skip(i2 as int + 1)) {
                        Err(e2) => {},
                        Ok(q2) => {
                            assert(acc + (qe + q2) =~= (acc + qe) + q2);
                        },
                    }
                },
            }
        }
        while j2 < t.entries.len()
            invariant
                tv == tree.deep_view(),
                tv.len() == tree.len(),
                0 <= i2 < tree.len(),
                ev == tree[i2 as int].entries.deep_view(),
                ev.len() == tree[i2 as int].entries.len(),
                0 <= j2 <= ev.len(),
                junk_part == junk_ops(tv),
                junk_part.len() <= ops.len(),
                match out_ops_entries(tv[i2 as int].name, ev.skip(j2 as int)) {
                    Ok(q) => match out_ops(tv.skip(i2 as int + 1)) {
                        Ok(q2) => out_ops(tv) == Ok::<Seq<Seq<Seq<char>>>, CleanupErrorView>(
                            (ops.deep_view().skip(junk_part.len() as int) + q) + q2,
                        ),
                        Err(e2) => out_ops(tv) == Err::<Seq<Seq<Seq<char>>>, CleanupErrorView>(
                            e2,
                        ),
                    },
                    Err(e) => out_ops(tv) == Err::<Seq<Seq<Seq<char>>>, CleanupErrorView>(e),
                },
                ops.deep_view().take(junk_part.len() as int) == junk_part,
                forall|k: int|
                    0 <= k < ops.len() ==> (#[trigger] ops.deep_view()[k]).len() > 0 && (
                    ops.deep_view()[k].last() == junk_name() || ops.deep_view()[k].last()
                        == out_name()),
            decreases t.entries.len() - j2,
        {
            proof {
                let rem = ev.skip(j2 as int);
                assert(rem[0] == ev[j2 as int]);
                assert(rem.drop_first() =~= ev.skip(j2 as int + 1));
                assert(tree[i2 as int].entries[j2 as int].deep_view() == ev[j2 as int]);
            }
            let ghost pre = ops.deep_view();
            let ghost lab = tv[i2 as int].name;
            let ghost here = ev[j2 as int];
            match scan_out(&t.name, &t.entries[j2]) {
                Err(e) => {
                    proof {
                        assert(out_ops_entries(lab, ev.skip(j2 as int)) == Err::<
                            Seq<Seq<Seq<char>>>,
                            CleanupErrorView,
                        >(e.deep_view()));
                    }
                    return Err(e);
                },
                Ok(Some(op)) => {
                    proof {
                        let p = out_ops_entry(lab, here)->Ok_0;
                        assert(p[0] == op.deep_view());
                        assert(p.len() == 1);
                        let remj = remove_entry(here.children, junk_name());
                        assert(remj.len() == 1);
                        assert(p[0] =~= seq![lab, here.name, remj[0], out_name()]);
                        assert(op.deep_view().len() == 4);
                        assert(op.deep_view().last() == out_name());
                    }
                    ops.push(op);
                    proof {
                        let p = out_ops_entry(lab, here)->Ok_0;
                        assert(ops.deep_view() =~= pre + p);
                        assert(ops.deep_view().take(junk_part.len() as int) =~= pre.take(junk_part.len() as int));
                        assert(ops.deep_view().skip(junk_part.len() as int) =~= pre.skip(junk_part.len() as int)
                            + p);
                        match out_ops_entries(lab, ev.skip(j2 as int + 1)) {
                            Err(e) => {},
                            Ok(qr) => {
                                assert(out_ops_entries(lab, ev.skip(j2 as int)) == Ok::<
                                    Seq<Seq<Seq<char>>>,
                                    CleanupErrorView,
                                >(p + qr));
                                match out_ops(tv.skip(i2 as int + 1)) {
                                    Err(e2) => {},
                                    Ok(q2) => {
                                        assert(((pre.skip(junk_part.len() as int) + (p + qr)) + q2) =~= ((
                                        ops.deep_view().skip(junk_part.len() as int) + qr) + q2));
                                    },
                                }
                            },
                        }
                    }
                },
                Ok(None) => {
                    proof {
                        match out_ops_entries(lab, ev.skip(j2 as int + 1)) {
                            Err(e) => {},
                            Ok(qr) => {
                                assert(Seq::<Seq<Seq<char>>>::empty() + qr =~= qr);
                                assert(out_ops_entries(lab, ev.skip(j2 as int)) == Ok::<
                                    Seq<Seq<Seq<char>>>,
                                    CleanupErrorView,
                                >(qr));
                            },
                        }
                    }
                },
            }
            j2 += 1;
        }
        proof {
            assert(ev.skip(ev.len() as int) =~= Seq::<EntryDirView>::empty());
            let acc = ops.deep_view().skip(junk_part.len() as int);
            assert(acc + Seq::<Seq<Seq<char>>>::empty() =~= acc);
        }
        i2 += 1;
    }
    proof {
        assert(tv.skip(tree.len() as int) =~= Seq::<SubtreeView>::empty());
        assert(ops.deep_view().skip(junk_part.len() as int) + Seq::<Seq<Seq<char>>>::empty()
            =~= ops.deep_view().skip(junk_part.len() as int));
        assert(ops.deep_view() =~= ops.deep_view().take(junk_part.len() as int) + ops.deep_view().skip(
            junk_part.len() as int,
        ));
    }
    Ok(ops)
}

} // verus!
