//! The submission router: walks the listing of an expanded workspace,
//! validates its structure, matches each submission directory's name against
//! the pending filter entries, and plans one extraction per matched entry.
//! A matched entry is consumed (every pending item with the same text is
//! dropped), so later submissions cannot match it again; entries never
//! matched are returned for reporting.
use vstd::prelude::*;

use crate::text::{find_sub, has_sub, spec_is_zip_name, is_zip_name, str_eq};

verus! {

/// One entry inside a submission directory, as listed by the caller.
#[derive(Debug)]
pub struct FileEntry {
    pub name: String,
    pub is_dir: bool,
}

/// One directory under a lab directory: a submission, whose directory name
/// is the match key and which must hold exactly one ".zip" file.
#[derive(Debug)]
pub struct SubmissionDir {
    pub name: String,
    pub is_dir: bool,
    pub files: Vec<FileEntry>,
}

/// One entry directly under the workspace root: a lab grouping, which must
/// be a directory of submissions.
#[derive(Debug)]
pub struct LabEntry {
    pub name: String,
    pub is_dir: bool,
    pub subs: Vec<SubmissionDir>,
}

pub struct FileView {
    pub name: Seq<char>,
    pub is_dir: bool,
}

pub struct SubView {
    pub name: Seq<char>,
    pub is_dir: bool,
    pub files: Seq<FileView>,
}

pub struct LabView {
    pub name: Seq<char>,
    pub is_dir: bool,
    pub subs: Seq<SubView>,
}

impl DeepView for FileEntry {
    type V = FileView;

    open spec fn deep_view(&self) -> FileView {
        FileView { name: self.name@, is_dir: self.is_dir }
    }
}

impl DeepView for SubmissionDir {
    type V = SubView;

    open spec fn deep_view(&self) -> SubView {
        SubView { name: self.name@, is_dir: self.is_dir, files: self.files.deep_view() }
    }
}

impl DeepView for LabEntry {
    type V = LabView;

    open spec fn deep_view(&self) -> LabView {
        LabView { name: self.name@, is_dir: self.is_dir, subs: self.subs.deep_view() }
    }
}

/// A structural violation of the expected workspace shape; each variant
/// names the offending place.
#[derive(Debug)]
pub enum RouteError {
    /// An entry at the workspace root is not a directory.
    LabNotDir { name: String },
    /// An entry inside a lab directory is not a submission directory.
    SubNotDir { lab_name: String, name: String },
    /// A submission directory does not hold exactly one file.
    NotOneFile { lab_name: String, sub_name: String, found: usize },
    /// A submission's single file is not a ".zip" archive.
    NotZip { lab_name: String, sub_name: String, file_name: String },
}

pub enum RouteErrorView {
    LabNotDir { name: Seq<char> },
    SubNotDir { lab_name: Seq<char>, name: Seq<char> },
    NotOneFile { lab_name: Seq<char>, sub_name: Seq<char>, found: int },
    NotZip { lab_name: Seq<char>, sub_name: Seq<char>, file_name: Seq<char> },
}

impl DeepView for RouteError {
    type V = RouteErrorView;

    open spec fn deep_view(&self) -> RouteErrorView {
        match self {
            RouteError::LabNotDir { name } => RouteErrorView::LabNotDir { name: name@ },
            RouteError::SubNotDir { lab_name, name } => RouteErrorView::SubNotDir {
                lab_name: lab_name@,
                name: name@,
            },
            RouteError::NotOneFile { lab_name, sub_name, found } => RouteErrorView::NotOneFile {
                lab_name: lab_name@,
                sub_name: sub_name@,
                found: *found as int,
            },
            RouteError::NotZip { lab_name, sub_name, file_name } => RouteErrorView::NotZip {
                lab_name: lab_name@,
                sub_name: sub_name@,
                file_name: file_name@,
            },
        }
    }
}

/// One planned extraction: expand `<root>/<lab_name>/<sub_name>/<file_name>`
/// into `<target>/<entry>/`.
#[derive(Debug)]
pub struct ExtractAction {
    pub lab_name: String,
    pub sub_name: String,
    pub file_name: String,
    pub entry: String,
}

pub struct ActionView {
    pub lab_name: Seq<char>,
    pub sub_name: Seq<char>,
    pub file_name: Seq<char>,
    pub entry: Seq<char>,
}

impl DeepView for ExtractAction {
    type V = ActionView;

    open spec fn deep_view(&self) -> ActionView {
        ActionView {
            lab_name: self.lab_name@,
            sub_name: self.sub_name@,
            file_name: self.file_name@,
            entry: self.entry@,
        }
    }
}

/// The outcome of one router pass: the extractions to perform, in order,
/// and the filter entries that no submission matched.
#[derive(Debug)]
pub struct RoutePlan {
    pub actions: Vec<ExtractAction>,
    pub unmatched: Vec<String>,
}

pub struct PlanView {
    pub actions: Seq<ActionView>,
    pub unmatched: Seq<Seq<char>>,
}

impl DeepView for RoutePlan {
    type V = PlanView;

    open spec fn deep_view(&self) -> PlanView {
        PlanView { actions: self.actions.deep_view(), unmatched: self.unmatched.deep_view() }
    }
}

/// Index of the first filter entry that is a substring of `key`, or
/// `filters.len()` when none is.
pub open spec fn first_match(filters: Seq<Seq<char>>, key: Seq<char>) -> int
    decreases filters.len(),
{
    if filters.len() == 0 {
        0
    } else if has_sub(key, filters[0]) {
        0
    } else {
        1 + first_match(filters.drop_first(), key)
    }
}

pub proof fn lemma_first_match(filters: Seq<Seq<char>>, key: Seq<char>)
    ensures
        0 <= first_match(filters, key) <= filters.len(),
        first_match(filters, key) < filters.len() ==> has_sub(
            key,
            filters[first_match(filters, key)],
        ),
        forall|j: int| 0 <= j < first_match(filters, key) ==> !has_sub(key, filters[j]),
    decreases filters.len(),
{
    if filters.len() == 0 {
    } else if has_sub(key, filters[0]) {
    } else {
        lemma_first_match(filters.drop_first(), key);
        let m = first_match(filters, key);
        if m < filters.len() {
            assert(filters[m] == filters.drop_first()[m - 1]);
        }
        assert forall|j: int| 0 <= j < m implies !has_sub(key, filters[j]) by {
            if j > 0 {
                assert(filters[j] == filters.drop_first()[j - 1]);
            }
        }
    }
}

pub proof fn lemma_first_match_at(filters: Seq<Seq<char>>, key: Seq<char>, k: int)
    requires
        0 <= k < filters.len(),
        has_sub(key, filters[k]),
        forall|j: int| 0 <= j < k ==> !has_sub(key, filters[j]),
    ensures
        first_match(filters, key) == k,
    decreases k,
{
    if k == 0 {
    } else {
        assert(!has_sub(key, filters[0]));
        assert(filters.drop_first()[k - 1] == filters[k]);
        assert forall|j: int| 0 <= j < k - 1 implies !has_sub(key, filters.drop_first()[j]) by {
            assert(filters.drop_first()[j] == filters[j + 1]);
        }
        lemma_first_match_at(filters.drop_first(), key, k - 1);
    }
}

pub proof fn lemma_first_match_none(filters: Seq<Seq<char>>, key: Seq<char>)
    requires
        forall|j: int| 0 <= j < filters.len() ==> !has_sub(key, filters[j]),
    ensures
        first_match(filters, key) == filters.len(),
    decreases filters.len(),
{
    if filters.len() == 0 {
    } else {
        assert forall|j: int| 0 <= j < filters.drop_first().len() implies !has_sub(
            key,
            filters.drop_first()[j],
        ) by {
            assert(filters.drop_first()[j] == filters[j + 1]);
        }
        lemma_first_match_none(filters.drop_first(), key);
    }
}

/// The pending list after an entry with text `t` is consumed: every item
/// equal to `t` is dropped, order otherwise kept.
pub open spec fn remove_entry(filters: Seq<Seq<char>>, t: Seq<char>) -> Seq<Seq<char>>
    decreases filters.len(),
{
    if filters.len() == 0 {
        Seq::empty()
    } else if filters[0] == t {
        remove_entry(filters.drop_first(), t)
    } else {
        seq![filters[0]] + remove_entry(filters.drop_first(), t)
    }
}

/// No item equal to `t` survives its removal.
pub proof fn lemma_remove_entry_absent(filters: Seq<Seq<char>>, t: Seq<char>)
    ensures
        forall|k: int|
            0 <= k < remove_entry(filters, t).len() ==> remove_entry(filters, t)[k] != t,
    decreases filters.len(),
{
    if filters.len() == 0 {
    } else {
        lemma_remove_entry_absent(filters.drop_first(), t);
        if filters[0] != t {
            let r = remove_entry(filters, t);
            let rr = remove_entry(filters.drop_first(), t);
            assert forall|k: int| 0 <= k < r.len() implies r[k] != t by {
                if k > 0 {
                    assert(r[k] == rr[k - 1]);
                }
            }
        }
    }
}

/// Removal introduces nothing: a text absent before is absent after.
pub proof fn lemma_remove_entry_keeps_absent(filters: Seq<Seq<char>>, t: Seq<char>, x: Seq<char>)
    requires
        forall|k: int| 0 <= k < filters.len() ==> filters[k] != x,
    ensures
        forall|k: int|
            0 <= k < remove_entry(filters, t).len() ==> remove_entry(filters, t)[k] != x,
    decreases filters.len(),
{
    if filters.len() == 0 {
    } else {
        assert forall|k: int| 0 <= k < filters.drop_first().len() implies filters.drop_first()[k]
            != x by {
            assert(filters.drop_first()[k] == filters[k + 1]);
        }
        lemma_remove_entry_keeps_absent(filters.drop_first(), t, x);
        if filters[0] != t {
            let r = remove_entry(filters, t);
            let rr = remove_entry(filters.drop_first(), t);
            assert forall|k: int| 0 <= k < r.len() implies r[k] != x by {
                if k > 0 {
                    assert(r[k] == rr[k - 1]);
                }
            }
        }
    }
}

pub type RouteState = Result<(Seq<Seq<char>>, Seq<ActionView>), RouteErrorView>;

/// The router's treatment of one submission directory: validate its shape,
/// then match its name against the pending filters; on a match, plan the
/// extraction and consume the entry.
pub open spec fn step_sub(
    lab_name: Seq<char>,
    sd: SubView,
    filters: Seq<Seq<char>>,
    actions: Seq<ActionView>,
) -> RouteState {
    if !sd.is_dir {
        Err(RouteErrorView::SubNotDir { lab_name, name: sd.name })
    } else if sd.files.len() != 1 {
        Err(
            RouteErrorView::NotOneFile {
                lab_name,
                sub_name: sd.name,
                found: sd.files.len() as int,
            },
        )
    } else if sd.files[0].is_dir || !spec_is_zip_name(sd.files[0].name) {
        Err(
            RouteErrorView::NotZip {
                lab_name,
                sub_name: sd.name,
                file_name: sd.files[0].name,
            },
        )
    } else {
        let m = first_match(filters, sd.name);
        if m < filters.len() {
            Ok(
                (
                    remove_entry(filters, filters[m]),
                    actions.push(
                        ActionView {
                            lab_name,
                            sub_name: sd.name,
                            file_name: sd.files[0].name,
                            entry: filters[m],
                        },
                    ),
                ),
            )
        } else {
            Ok((filters, actions))
        }
    }
}

/// The submissions of one lab directory, in order.
pub open spec fn route_subs(
    lab_name: Seq<char>,
    subs: Seq<SubView>,
    filters: Seq<Seq<char>>,
    actions: Seq<ActionView>,
) -> RouteState
    decreases subs.len(),
{
    if subs.len() == 0 {
        Ok((filters, actions))
    } else {
        match step_sub(lab_name, subs[0], filters, actions) {
            Err(e) => Err(e),
            Ok((f2, a2)) => route_subs(lab_name, subs.drop_first(), f2, a2),
        }
    }
}

/// The lab directories under the workspace root, in order.
pub open spec fn route_labs(
    labs: Seq<LabView>,
    filters: Seq<Seq<char>>,
    actions: Seq<ActionView>,
) -> RouteState
    decreases labs.len(),
{
    if labs.len() == 0 {
        Ok((filters, actions))
    } else if !labs[0].is_dir {
        Err(RouteErrorView::LabNotDir { name: labs[0].name })
    } else {
        match route_subs(labs[0].name, labs[0].subs, filters, actions) {
            Err(e) => Err(e),
            Ok((f2, a2)) => route_labs(labs.drop_first(), f2, a2),
        }
    }
}

/// The whole router pass: all labs processed from the full filter list and
/// no actions; what remains pending at the end is the unmatched report.
pub open spec fn spec_route(labs: Seq<LabView>, filters: Seq<Seq<char>>) -> Result<
    PlanView,
    RouteErrorView,
> {
    match route_labs(labs, filters, Seq::empty()) {
        Err(e) => Err(e),
        Ok((f2, a2)) => Ok(PlanView { actions: a2, unmatched: f2 }),
    }
}

/// Continue a router pass over the labs still to come.
pub open spec fn cont_labs(rest: Seq<LabView>, st: RouteState) -> RouteState {
    match st {
        Err(e) => Err(e),
        Ok((f, a)) => route_labs(rest, f, a),
    }
}

/// Select the filter entry a submission name matches: the first entry, in
/// list order, whose text is a substring of `key`; `None` when no entry is.
pub fn find_match(filters: &Vec<String>, key: &str) -> (r: Option<usize>)
    ensures
        match r {
            Some(i) => i < filters.len() && i as int == first_match(filters.deep_view(), key@)
                && has_sub(key@, filters.deep_view()[i as int]) && forall|j: int|
                0 <= j < i ==> !has_sub(key@, filters.deep_view()[j]),
            None => first_match(filters.deep_view(), key@) == filters.deep_view().len() && forall|
                j: int,
            |
                0 <= j < filters.deep_view().len() ==> !has_sub(key@, filters.deep_view()[j]),
        },
{
    let ghost fv = filters.deep_view();
    let mut i: usize = 0;
    while i < filters.len()
        invariant
            fv == filters.deep_view(),
            fv.len() == filters.len(),
            0 <= i <= filters.len(),
            forall|j: int| 0 <= j < i ==> !has_sub(key@, fv[j]),
        decreases filters.len() - i,
    {
        proof {
            assert(fv[i as int] == filters[i as int]@);
        }
        match find_sub(key, filters[i].as_str()) {
            Some(_) => {
                proof {
                    lemma_first_match_at(fv, key@, i as int);
                }
                return Some(i);
            },
            None => {},
        }
        i += 1;
    }
    proof {
        lemma_first_match_none(fv, key@);
    }
    None
}

/// Drop every pending entry whose text equals `t`.
pub(crate) fn consume_entry(filters: &Vec<String>, t: &String) -> (r: Vec<String>)
    ensures
        r.deep_view() == remove_entry(filters.deep_view(), t@),
{
    let ghost full = filters.deep_view();
    let mut out: Vec<String> = Vec::new();
    let mut i: usize = 0;
    proof {
        assert(full.skip(0) =~= full);
        assert(out.deep_view() + remove_entry(full, t@) =~= remove_entry(full, t@));
    }
    while i < filters.len()
        invariant
            full == filters.deep_view(),
            full.len() == filters.len(),
            0 <= i <= filters.len(),
            remove_entry(full, t@) == out.deep_view() + remove_entry(full.skip(i as int), t@),
        decreases filters.len() - i,
    {
        let ghost pre = out.deep_view();
        proof {
            let rem = full.skip(i as int);
            assert(rem[0] == full[i as int]);
            assert(rem.drop_first() =~= full.skip(i as int + 1));
            assert(filters[i as int]@ == full[i as int]);
        }
        if !str_eq(filters[i].as_str(), t.as_str()) {
            out.push(filters[i].clone());
            proof {
                assert(out.deep_view() =~= pre + seq![full[i as int]]);
                assert(pre + (seq![full[i as int]] + remove_entry(full.skip(i as int + 1), t@))
                    =~= (pre + seq![full[i as int]]) + remove_entry(full.skip(i as int + 1), t@));
            }
        }
        i += 1;
    }
    proof {
        assert(full.skip(filters.len() as int) =~= Seq::<Seq<char>>::empty());
        assert(out.deep_view() + Seq::<Seq<char>>::empty() =~= out.deep_view());
    }
    out
}

/// One full router pass over the listed workspace: takes ownership of the
/// pending filter list, validates the structure, and returns either the
/// plan (extractions in encounter order, then the entries never matched) or
/// the first structural violation.
pub fn route(labs: &Vec<LabEntry>, filters: Vec<String>) -> (r: Result<RoutePlan, RouteError>)
    ensures
        match r {
            Ok(plan) => spec_route(labs.deep_view(), filters.deep_view()) == Ok::<
                PlanView,
                RouteErrorView,
            >(plan.deep_view()),
            Err(e) => spec_route(labs.deep_view(), filters.deep_view()) == Err::<
                PlanView,
                RouteErrorView,
            >(e.deep_view()),
        },
{
    let ghost lv = labs.deep_view();
    let ghost f0 = filters.deep_view();
    let ghost goal = route_labs(lv, f0, Seq::empty());
    let mut cur = filters;
    let mut out: Vec<ExtractAction> = Vec::new();
    let mut i: usize = 0;
    proof {
        assert(lv.skip(0) =~= lv);
        assert(out.deep_view() =~= Seq::<ActionView>::empty());
    }
    while i < labs.len()
        invariant
            lv == labs.deep_view(),
            f0 == filters.deep_view(),
            lv.len() == labs.len(),
            0 <= i <= labs.len(),
            route_labs(lv.skip(i as int), cur.deep_view(), out.deep_view()) == goal,
            goal == route_labs(lv, f0, Seq::<ActionView>::empty()),
        decreases labs.len() - i,
    {
        proof {
            let rem = lv.skip(i as int);
            assert(rem[0] == lv[i as int]);
            assert(rem.drop_first() =~= lv.skip(i as int + 1));
            assert(labs[i as int].deep_view() == lv[i as int]);
        }
        if !labs[i].is_dir {
            let e = RouteError::LabNotDir { name: labs[i].name.clone() };
            proof {
                assert(route_labs(lv.skip(i as int), cur.deep_view(), out.deep_view())
                    == Err::<(Seq<Seq<char>>, Seq<ActionView>), RouteErrorView>(e.deep_view()));
            }
            return Err(e);
        }
        let ghost sv = labs[i as int].subs.deep_view();
        let mut j: usize = 0;
        proof {
            assert(sv.skip(0) =~= sv);
            assert(cont_labs(
                lv.skip(i as int + 1),
                route_subs(lv[i as int].name, sv, cur.deep_view(), out.deep_view()),
            ) == goal);
        }
        while j < labs[i].subs.len()
            invariant
                lv == labs.deep_view(),
                f0 == filters.deep_view(),
                lv.len() == labs.len(),
                0 <= i < labs.len(),
                sv == labs[i as int].subs.deep_view(),
                sv.len() == labs[i as int].subs.len(),
                labs[i as int].is_dir,
                0 <= j <= sv.len(),
                cont_labs(
                    lv.skip(i as int + 1),
                    route_subs(lv[i as int].name, sv.skip(j as int), cur.deep_view(), out.deep_view()),
                ) == goal,
                goal == route_labs(lv, f0, Seq::<ActionView>::empty()),
            decreases sv.len() - j,
        {
            proof {
                let rem = sv.skip(j as int);
                assert(rem[0] == sv[j as int]);
                assert(rem.drop_first() =~= sv.skip(j as int + 1));
                assert(labs[i as int].subs[j as int].deep_view() == sv[j as int]);
            }
            let ghost sdv = sv[j as int];
            let ghost pre_cur = cur.deep_view();
            let ghost pre_out = out.deep_view();
            let sd = &labs[i].subs[j];
            if !sd.is_dir {
                let e = RouteError::SubNotDir {
                    lab_name: labs[i].name.clone(),
                    name: sd.name.clone(),
                };
                proof {
                    assert(step_sub(lv[i as int].name, sdv, pre_cur, pre_out)
                        == Err::<(Seq<Seq<char>>, Seq<ActionView>), RouteErrorView>(e.deep_view()));
                }
                return Err(e);
            }
            if sd.files.len() != 1 {
                let e = RouteError::NotOneFile {
                    lab_name: labs[i].name.clone(),
                    sub_name: sd.name.clone(),
                    found: sd.files.len(),
                };
                proof {
                    assert(step_sub(lv[i as int].name, sdv, pre_cur, pre_out)
                        == Err::<(Seq<Seq<char>>, Seq<ActionView>), RouteErrorView>(e.deep_view()));
                }
                return Err(e);
            }
            let f = &sd.files[0];
            proof {
                assert(sd.files.deep_view()[0] == sd.files[0].deep_view());
            }
            if f.is_dir || !is_zip_name(f.name.as_str()) {
                let e = RouteError::NotZip {
                    lab_name: labs[i].name.clone(),
                    sub_name: sd.name.clone(),
                    file_name: f.name.clone(),
                };
                proof {
                    assert(step_sub(lv[i as int].name, sdv, pre_cur, pre_out)
                        == Err::<(Seq<Seq<char>>, Seq<ActionView>), RouteErrorView>(e.deep_view()));
                }
                return Err(e);
            }
            match find_match(&cur, sd.name.as_str()) {
                Some(m) => {
                    proof {
                        assert(cur.deep_view()[m as int] == cur[m as int]@);
                    }
                    let entry = cur[m].clone();
                    let next = consume_entry(&cur, &entry);
                    out.push(
                        ExtractAction {
                            lab_name: labs[i].name.clone(),
                            sub_name: sd.name.clone(),
                            file_name: f.name.clone(),
                            entry,
                        },
                    );
                    cur = next;
                    proof {
                        let av = ActionView {
                            lab_name: lv[i as int].name,
                            sub_name: sdv.name,
                            file_name: sdv.files[0].name,
                            entry: pre_cur[m as int],
                        };
                        assert(out.deep_view() =~= pre_out.push(av));
                        assert(step_sub(lv[i as int].name, sdv, pre_cur, pre_out) == Ok::<
                            (Seq<Seq<char>>, Seq<ActionView>),
                            RouteErrorView,
                        >((cur.deep_view(), out.deep_view())));
                    }
                },
                None => {
                    proof {
                        assert(step_sub(lv[i as int].name, sdv, pre_cur, pre_out) == Ok::<
                            (Seq<Seq<char>>, Seq<ActionView>),
                            RouteErrorView,
                        >((cur.deep_view(), out.deep_view())));
                    }
                },
            }
            j += 1;
        }
        proof {
            assert(sv.skip(sv.len() as int) =~= Seq::<SubView>::empty());
        }
        i += 1;
    }
    proof {
        assert(lv.skip(labs.len() as int) =~= Seq::<LabView>::empty());
    }
    Ok(RoutePlan { actions: out, unmatched: cur })
}

/// A submission whose name no pending entry matches produces no output and
/// changes nothing: the pending list and the planned actions are untouched.
pub proof fn lemma_no_match_no_output(
    lab_name: Seq<char>,
    sd: SubView,
    filters: Seq<Seq<char>>,
    actions: Seq<ActionView>,
)
    requires
        forall|j: int| 0 <= j < filters.len() ==> !has_sub(sd.name, filters[j]),
    ensures
        step_sub(lab_name, sd, filters, actions) is Err || step_sub(lab_name, sd, filters, actions)
            == Ok::<(Seq<Seq<char>>, Seq<ActionView>), RouteErrorView>((filters, actions)),
{
    lemma_first_match_none(filters, sd.name);
}

/// The entry text `t` occurs nowhere in `filters`.
pub open spec fn entry_absent(filters: Seq<Seq<char>>, t: Seq<char>) -> bool {
    forall|k: int| 0 <= k < filters.len() ==> filters[k] != t
}

/// The consumed-once invariant: planned entries are pairwise distinct, and
/// none of them is still pending.
pub open spec fn consumed_once(filters: Seq<Seq<char>>, actions: Seq<ActionView>) -> bool {
    &&& forall|a: int, b: int|
        0 <= a < b < actions.len() ==> (#[trigger] actions[a].entry) != (
        #[trigger] actions[b].entry)
    &&& forall|a: int| 0 <= a < actions.len() ==> entry_absent(filters, #[trigger] actions[a].entry)
}

proof fn lemma_step_consumed_once(
    lab_name: Seq<char>,
    sd: SubView,
    filters: Seq<Seq<char>>,
    actions: Seq<ActionView>,
)
    requires
        consumed_once(filters, actions),
        step_sub(lab_name, sd, filters, actions) is Ok,
    ensures
        consumed_once(
            step_sub(lab_name, sd, filters, actions)->Ok_0.0,
            step_sub(lab_name, sd, filters, actions)->Ok_0.1,
        ),
{
    let m = first_match(filters, sd.name);
    lemma_first_match(filters, sd.name);
    if sd.is_dir && sd.files.len() == 1 && !sd.files[0].is_dir && spec_is_zip_name(
        sd.files[0].name,
    ) && m < filters.len() {
        let t = filters[m];
        let f2 = remove_entry(filters, t);
        let a2 = actions.push(
            ActionView { lab_name, sub_name: sd.name, file_name: sd.files[0].name, entry: t },
        );
        lemma_remove_entry_absent(filters, t);
        assert forall|a: int| 0 <= a < a2.len() implies entry_absent(f2, #[trigger] a2[a].entry) by {
            if a < actions.len() {
                assert(entry_absent(filters, actions[a].entry));
                lemma_remove_entry_keeps_absent(filters, t, actions[a].entry);
            } else {
                assert(a2[a].entry == t);
            }
        }
        assert forall|a: int, b: int| 0 <= a < b < a2.len() implies (#[trigger] a2[a].entry) != (
        #[trigger] a2[b].entry) by {
            if b == actions.len() {
                assert(entry_absent(filters, actions[a].entry));
                assert(a2[b].entry == t);
                assert(filters[m] == t);
            }
        }
    }
}

proof fn lemma_route_subs_consumed_once(
    lab_name: Seq<char>,
    subs: Seq<SubView>,
    filters: Seq<Seq<char>>,
    actions: Seq<ActionView>,
)
    requires
        consumed_once(filters, actions),
        route_subs(lab_name, subs, filters, actions) is Ok,
    ensures
        consumed_once(
            route_subs(lab_name, subs, filters, actions)->Ok_0.0,
            route_subs(lab_name, subs, filters, actions)->Ok_0.1,
        ),
    decreases subs.len(),
{
    if subs.len() == 0 {
    } else {
        let st = step_sub(lab_name, subs[0], filters, actions);
        match st {
            Err(e) => {},
            Ok((f2, a2)) => {
                lemma_step_consumed_once(lab_name, subs[0], filters, actions);
                lemma_route_subs_consumed_once(lab_name, subs.drop_first(), f2, a2);
            },
        }
    }
}

proof fn lemma_route_labs_consumed_once(
    labs: Seq<LabView>,
    filters: Seq<Seq<char>>,
    actions: Seq<ActionView>,
)
    requires
        consumed_once(filters, actions),
        route_labs(labs, filters, actions) is Ok,
    ensures
        consumed_once(
            route_labs(labs, filters, actions)->Ok_0.0,
            route_labs(labs, filters, actions)->Ok_0.1,
        ),
    decreases labs.len(),
{
    if labs.len() == 0 {
    } else if !labs[0].is_dir {
    } else {
        match route_subs(labs[0].name, labs[0].subs, filters, actions) {
            Err(e) => {},
            Ok((f2, a2)) => {
                lemma_route_subs_consumed_once(labs[0].name, labs[0].subs, filters, actions);
                lemma_route_labs_consumed_once(labs.drop_first(), f2, a2);
            },
        }
    }
}

/// Each filter entry is consumed at most once per router pass: in a
/// successful plan the matched entry texts are pairwise distinct — no two
/// planned extractions write to the same output subdirectory — and no
/// matched text is also reported unmatched.
pub proof fn lemma_entry_consumed_once(labs: Seq<LabView>, filters: Seq<Seq<char>>)
    ensures
        spec_route(labs, filters) matches Ok(plan) ==> {
            &&& forall|a: int, b: int|
                0 <= a < b < plan.actions.len() ==> (#[trigger] plan.actions[a].entry) != (
                #[trigger] plan.actions[b].entry)
            &&& forall|a: int|
                0 <= a < plan.actions.len() ==> entry_absent(
                    plan.unmatched,
                    #[trigger] plan.actions[a].entry,
                )
        },
{
    if route_labs(labs, filters, Seq::empty()) is Ok {
        assert(consumed_once(filters, Seq::empty()));
        lemma_route_labs_consumed_once(labs, filters, Seq::empty());
    }
}

} // verus!
