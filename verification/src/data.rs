use vstd::prelude::*;

use crate::error::Error;

verus! {

/// Completion state of a task.
#[derive(Clone, Copy, Debug, PartialEq, Eq, Structural)]
pub enum TaskState {
    Incomplete,
    Complete,
}

/// A free-form note, addressed only by its 1-based position in its group.
#[derive(Clone, Debug, PartialEq)]
pub struct Note {
    pub note: String,
}

/// A task with a completion state, addressed like a note.
#[derive(Clone, Debug, PartialEq)]
pub struct Task {
    pub task: String,
    pub state: TaskState,
}

/// A named node of the store: ordered notes, tasks and child-group names.
#[derive(Clone, Debug, PartialEq)]
pub struct Group {
    pub name: String,
    pub notes: Vec<Note>,
    pub tasks: Vec<Task>,
    pub groups: Vec<String>,
}

/// Free-form information fields attached to the whole store.
#[derive(Clone, Debug, PartialEq)]
pub struct ProjectInfo {
    pub title: Option<String>,
    pub description: Option<String>,
    pub repo: Option<String>,
}

/// The aggregate root: every group of the store, keyed by its unique name,
/// plus the ordered watch set of currently selected group names.
#[derive(Clone, Debug, PartialEq)]
pub struct Project {
    pub active_groups: Vec<String>,
    pub groups: Vec<Group>,
    pub information: ProjectInfo,
}

/// Mathematical model of a task.
#[verifier::ext_equal]
pub struct TaskView {
    pub text: Seq<char>,
    pub state: TaskState,
}

/// Mathematical model of a group.
#[verifier::ext_equal]
pub struct GroupView {
    pub name: Seq<char>,
    pub notes: Seq<Seq<char>>,
    pub tasks: Seq<TaskView>,
    pub children: Seq<Seq<char>>,
}

/// Mathematical model of the whole store.
#[verifier::ext_equal]
pub struct ProjectView {
    pub active: Seq<Seq<char>>,
    pub groups: Seq<GroupView>,
    pub title: Option<Seq<char>>,
    pub description: Option<Seq<char>>,
    pub repo: Option<Seq<char>>,
}

/// The character-sequence views of a string sequence.
pub open spec fn str_views(v: Seq<String>) -> Seq<Seq<char>> {
    v.map(|i: int, s: String| s@)
}

/// The views of a note sequence.
pub open spec fn note_views(v: Seq<Note>) -> Seq<Seq<char>> {
    v.map(|i: int, n: Note| n@)
}

/// The views of a task sequence.
pub open spec fn task_views(v: Seq<Task>) -> Seq<TaskView> {
    v.map(|i: int, t: Task| t@)
}

/// The views of a group sequence.
pub open spec fn group_views(v: Seq<Group>) -> Seq<GroupView> {
    v.map(|i: int, g: Group| g@)
}

/// The names of a group-view sequence, in order.
pub open spec fn names_of(gs: Seq<GroupView>) -> Seq<Seq<char>> {
    gs.map(|i: int, g: GroupView| g.name)
}

impl View for Note {
    type V = Seq<char>;

    open spec fn view(&self) -> Seq<char> {
        self.note@
    }
}

impl View for Task {
    type V = TaskView;

    open spec fn view(&self) -> TaskView {
        TaskView { text: self.task@, state: self.state }
    }
}

impl View for Group {
    type V = GroupView;

    open spec fn view(&self) -> GroupView {
        GroupView {
            name: self.name@,
            notes: note_views(self.notes@),
            tasks: task_views(self.tasks@),
            children: str_views(self.groups@),
        }
    }
}

impl View for Project {
    type V = ProjectView;

    open spec fn view(&self) -> ProjectView {
        ProjectView {
            active: str_views(self.active_groups@),
            groups: group_views(self.groups@),
            title: opt_view(self.information.title),
            description: opt_view(self.information.description),
            repo: opt_view(self.information.repo),
        }
    }
}

/// The character-sequence view of an optional string.
pub open spec fn opt_view(o: Option<String>) -> Option<Seq<char>> {
    match o {
        Some(s) => Some(s@),
        None => None,
    }
}

/// Index of the first group view carrying `name`; the sequence length when
/// no group does.
pub open spec fn first_name_idx(names: Seq<Seq<char>>, name: Seq<char>) -> int
    decreases names.len(),
{
    if names.len() == 0 {
        0
    } else if names[0] == name {
        0
    } else {
        1 + first_name_idx(names.drop_first(), name)
    }
}

/// What `first_name_idx` finds: the least index holding `name`, or the
/// length when `name` is absent.
pub proof fn lemma_first_name_idx(names: Seq<Seq<char>>, name: Seq<char>)
    ensures
        names.contains(name) ==> {
            let i = first_name_idx(names, name);
            &&& 0 <= i < names.len()
            &&& names[i] == name
            &&& forall|j: int| 0 <= j < i ==> names[j] != name
        },
        !names.contains(name) ==> first_name_idx(names, name) == names.len(),
    decreases names.len(),
{
    if names.len() > 0 && names[0] != name {
        let rest = names.drop_first();
        lemma_first_name_idx(rest, name);
        assert forall|j: int| 0 <= j < rest.len() implies rest[j] == names[j + 1] by {}
        if names.contains(name) {
            let k = choose|k: int| 0 <= k < names.len() && names[k] == name;
            assert(rest[k - 1] == name);
            assert(rest.contains(name));
            let ip = first_name_idx(rest, name);
            let i = first_name_idx(names, name);
            assert(i == 1 + ip);
            assert(names[i] == rest[ip]);
            assert forall|j: int| 0 <= j < i implies names[j] != name by {
                if j > 0 {
                    assert(rest[j - 1] == names[j]);
                    assert(rest[j - 1] != name);
                }
            }
        } else if rest.contains(name) {
            let k = choose|k: int| 0 <= k < rest.len() && rest[k] == name;
            assert(names[k + 1] == name);
            assert(false);
        }
    }
}

impl ProjectView {
    /// The group names, in store order.
    pub open spec fn names(self) -> Seq<Seq<char>> {
        names_of(self.groups)
    }

    /// Whether some group carries `name`.
    pub open spec fn has_group(self, name: Seq<char>) -> bool {
        self.names().contains(name)
    }

    /// Index of the first group carrying `name`.
    pub open spec fn idx_of(self, name: Seq<char>) -> int {
        first_name_idx(self.names(), name)
    }

    /// The first group carrying `name` (meaningful only when it exists).
    pub open spec fn group_named(self, name: Seq<char>) -> GroupView {
        self.groups[self.idx_of(name)]
    }

    /// The empty store.
    pub open spec fn empty() -> ProjectView {
        ProjectView {
            active: Seq::empty(),
            groups: Seq::empty(),
            title: None,
            description: None,
            repo: None,
        }
    }

    /// Child lists are duplicate-free and point at existing groups.
    pub open spec fn children_ok(self, g: GroupView) -> bool {
        &&& g.children.no_duplicates()
        &&& forall|j: int| 0 <= j < g.children.len() ==> self.has_group(#[trigger] g.children[j])
    }

    /// The store's invariant: unique group names, a duplicate-free watch set
    /// naming only existing groups, and no dangling child references.
    pub open spec fn wf(self) -> bool {
        &&& self.names().no_duplicates()
        &&& self.active.no_duplicates()
        &&& forall|i: int| 0 <= i < self.active.len() ==> self.has_group(#[trigger] self.active[i])
        &&& forall|i: int| 0 <= i < self.groups.len() ==> self.children_ok(#[trigger] self.groups[i])
    }
}

/// The entries of `v` that occur in `keep`, in order.
pub open spec fn keep_contained(v: Seq<Seq<char>>, keep: Seq<Seq<char>>) -> Seq<Seq<char>> {
    v.filter(|c: Seq<char>| keep.contains(c))
}

/// The entries of `v` that do not occur in `banned`, in order.
pub open spec fn drop_contained(v: Seq<Seq<char>>, banned: Seq<Seq<char>>) -> Seq<Seq<char>> {
    v.filter(|c: Seq<char>| !banned.contains(c))
}

/// Appending one entry extends a membership filter by at most that entry.
pub proof fn lemma_keep_contained_push(v: Seq<Seq<char>>, keep: Seq<Seq<char>>, x: Seq<char>)
    ensures
        keep_contained(v.push(x), keep) == keep_contained(v, keep) + if keep.contains(x) {
            seq![x]
        } else {
            Seq::<Seq<char>>::empty()
        },
{
    reveal(Seq::filter);
    assert(v.push(x).drop_last() =~= v);
    assert(v.push(x).last() == x);
    assert(keep_contained(v.push(x), keep) =~= keep_contained(v, keep) + if keep.contains(x) {
        seq![x]
    } else {
        Seq::<Seq<char>>::empty()
    });
}

/// Appending one entry extends an exclusion filter by at most that entry.
pub proof fn lemma_drop_contained_push(v: Seq<Seq<char>>, banned: Seq<Seq<char>>, x: Seq<char>)
    ensures
        drop_contained(v.push(x), banned) == drop_contained(v, banned) + if !banned.contains(x) {
            seq![x]
        } else {
            Seq::<Seq<char>>::empty()
        },
{
    reveal(Seq::filter);
    assert(v.push(x).drop_last() =~= v);
    assert(v.push(x).last() == x);
    assert(drop_contained(v.push(x), banned) =~= drop_contained(v, banned) + if !banned.contains(
        x,
    ) {
        seq![x]
    } else {
        Seq::<Seq<char>>::empty()
    });
}

/// Whether some entry of `v` views as `x`.
pub(crate) fn vec_contains_string(v: &Vec<String>, x: &String) -> (b: bool)
    ensures
        b == str_views(v@).contains(x@),
{
    let n = v.len();
    for i in 0..n
        invariant
            n == v@.len(),
            forall|j: int| 0 <= j < i ==> str_views(v@)[j] != x@,
    {
        if v[i] == *x {
            proof {
                assert(str_views(v@)[i as int] == x@);
            }
            return true;
        }
        proof {
            assert(str_views(v@)[i as int] == v@[i as int]@);
        }
    }
    proof {
        if str_views(v@).contains(x@) {
            let k = choose|k: int| 0 <= k < str_views(v@).len() && str_views(v@)[k] == x@;
            assert(false);
        }
    }
    false
}

/// The entries of `v` that occur in `keep`, in order.
pub(crate) fn retain_present(v: &Vec<String>, keep: &Vec<String>) -> (r: Vec<String>)
    ensures
        str_views(r@) == keep_contained(str_views(v@), str_views(keep@)),
{
    let mut r: Vec<String> = Vec::new();
    let n = v.len();
    proof {
        reveal(Seq::filter);
        assert(str_views(v@).take(0) =~= Seq::<Seq<char>>::empty());
        assert(keep_contained(Seq::<Seq<char>>::empty(), str_views(keep@))
            =~= Seq::<Seq<char>>::empty());
        assert(str_views(r@) =~= Seq::<Seq<char>>::empty());
    }
    for i in 0..n
        invariant
            n == v@.len(),
            str_views(r@) == keep_contained(str_views(v@).take(i as int), str_views(keep@)),
    {
        let ghost pre = str_views(r@);
        if vec_contains_string(keep, &v[i]) {
            r.push(v[i].clone());
        }
        proof {
            let vv = str_views(v@);
            assert(vv.take(i as int).push(vv[i as int]) =~= vv.take(i + 1));
            lemma_keep_contained_push(vv.take(i as int), str_views(keep@), vv[i as int]);
            assert(vv[i as int] == v@[i as int]@);
            if str_views(keep@).contains(vv[i as int]) {
                assert(str_views(r@) =~= pre + seq![vv[i as int]]);
            } else {
                assert(str_views(r@) =~= pre + Seq::<Seq<char>>::empty());
            }
        }
    }
    proof {
        assert(str_views(v@).take(n as int) =~= str_views(v@));
    }
    r
}

/// The entries of `v` that do not occur in `banned`, in order.
pub(crate) fn retain_absent(v: &Vec<String>, banned: &Vec<String>) -> (r: Vec<String>)
    ensures
        str_views(r@) == drop_contained(str_views(v@), str_views(banned@)),
{
    let mut r: Vec<String> = Vec::new();
    let n = v.len();
    proof {
        reveal(Seq::filter);
        assert(str_views(v@).take(0) =~= Seq::<Seq<char>>::empty());
        assert(drop_contained(Seq::<Seq<char>>::empty(), str_views(banned@))
            =~= Seq::<Seq<char>>::empty());
        assert(str_views(r@) =~= Seq::<Seq<char>>::empty());
    }
    for i in 0..n
        invariant
            n == v@.len(),
            str_views(r@) == drop_contained(str_views(v@).take(i as int), str_views(banned@)),
    {
        let ghost pre = str_views(r@);
        if !vec_contains_string(banned, &v[i]) {
            r.push(v[i].clone());
        }
        proof {
            let vv = str_views(v@);
            assert(vv.take(i as int).push(vv[i as int]) =~= vv.take(i + 1));
            lemma_drop_contained_push(vv.take(i as int), str_views(banned@), vv[i as int]);
            assert(vv[i as int] == v@[i as int]@);
            if !str_views(banned@).contains(vv[i as int]) {
                assert(str_views(r@) =~= pre + seq![vv[i as int]]);
            } else {
                assert(str_views(r@) =~= pre + Seq::<Seq<char>>::empty());
            }
        }
    }
    proof {
        assert(str_views(v@).take(n as int) =~= str_views(v@));
    }
    r
}

/// Outcome of resolving descendants: the resolved names in depth-first
/// pre-order, the first dangling name met, or exhaustion of the depth
/// bound (which only a cyclic store can cause).
pub enum DescResult {
    Found(Seq<Seq<char>>),
    Missing(Seq<char>),
    Depth,
}

/// How an executable resolution result mirrors its model-level outcome.
pub open spec fn desc_matches(r: Result<Vec<String>, Error>, d: DescResult) -> bool {
    match d {
        DescResult::Found(s) => match r {
            Ok(v) => str_views(v@) == s,
            _ => false,
        },
        DescResult::Missing(m) => match r {
            Err(Error::NotFound(n)) => n@ == m,
            _ => false,
        },
        DescResult::Depth => match r {
            Err(Error::CycleDetected) => true,
            _ => false,
        },
    }
}

impl ProjectView {
    /// Depth-first pre-order walk of `pending` and, recursively, of each
    /// entry's children, spending one unit of `fuel` per nesting level.
    pub open spec fn desc_children(self, pending: Seq<Seq<char>>, fuel: nat) -> DescResult
        decreases fuel, pending.len(),
    {
        if pending.len() == 0 {
            DescResult::Found(Seq::empty())
        } else if fuel == 0 {
            DescResult::Depth
        } else if !self.has_group(pending[0]) {
            DescResult::Missing(pending[0])
        } else {
            match self.desc_children(self.group_named(pending[0]).children, (fuel - 1) as nat) {
                DescResult::Found(sub) => match self.desc_children(pending.drop_first(), fuel) {
                    DescResult::Found(rest) => DescResult::Found(seq![pending[0]] + sub + rest),
                    r => r,
                },
                r => r,
            }
        }
    }

    /// The descendant closure of the group named `name`: every nested
    /// sub-group name in depth-first pre-order, `name` itself excluded.
    pub open spec fn desc(self, name: Seq<char>, fuel: nat) -> DescResult {
        if !self.has_group(name) {
            DescResult::Missing(name)
        } else {
            self.desc_children(self.group_named(name).children, fuel)
        }
    }

    /// The store after the cleanup pass: every child-list entry that does
    /// not resolve to an existing group is stripped; nothing else changes.
    pub open spec fn cleaned(self) -> ProjectView {
        ProjectView {
            groups: self.groups.map(
                |i: int, g: GroupView| GroupView {
                    children: keep_contained(g.children, self.names()),
                    ..g
                },
            ),
            ..self
        }
    }

    /// Each name of `names` followed by its descendant closure, concatenated
    /// left to right.
    pub open spec fn closure_list(self, names: Seq<Seq<char>>, fuel: nat) -> DescResult
        decreases names.len(),
    {
        if names.len() == 0 {
            DescResult::Found(Seq::empty())
        } else {
            match self.desc(names[0], fuel) {
                DescResult::Found(d) => match self.closure_list(names.drop_first(), fuel) {
                    DescResult::Found(r) => DescResult::Found(seq![names[0]] + d + r),
                    e => e,
                },
                e => e,
            }
        }
    }
}

impl ProjectView {
    /// Every name a successful child walk returns belongs to the store.
    pub proof fn lemma_desc_children_exist(self, pending: Seq<Seq<char>>, fuel: nat)
        requires
            self.desc_children(pending, fuel) is Found,
        ensures
            forall|k: int|
                0 <= k < self.desc_children(pending, fuel)->Found_0.len() ==> self.has_group(
                    #[trigger] self.desc_children(pending, fuel)->Found_0[k],
                ),
        decreases fuel, pending.len(),
    {
        if pending.len() > 0 {
            let children = self.group_named(pending[0]).children;
            let sub = self.desc_children(children, (fuel - 1) as nat);
            let rest = self.desc_children(pending.drop_first(), fuel);
            self.lemma_desc_children_exist(children, (fuel - 1) as nat);
            self.lemma_desc_children_exist(pending.drop_first(), fuel);
            let out = self.desc_children(pending, fuel)->Found_0;
            assert(out == seq![pending[0]] + sub->Found_0 + rest->Found_0);
            assert forall|k: int| 0 <= k < out.len() implies self.has_group(
                #[trigger] out[k],
            ) by {
                if k == 0 {
                    assert(out[k] == pending[0]);
                } else if k < 1 + sub->Found_0.len() {
                    assert(out[k] == sub->Found_0[k - 1]);
                } else {
                    assert(out[k] == rest->Found_0[k - 1 - sub->Found_0.len()]);
                }
            }
        }
    }

    /// Every name a successful closure resolution returns belongs to the
    /// store.
    pub proof fn lemma_closure_elements_exist(self, names: Seq<Seq<char>>, fuel: nat)
        requires
            self.closure_list(names, fuel) is Found,
        ensures
            forall|k: int|
                0 <= k < self.closure_list(names, fuel)->Found_0.len() ==> self.has_group(
                    #[trigger] self.closure_list(names, fuel)->Found_0[k],
                ),
        decreases names.len(),
    {
        if names.len() > 0 {
            let d = self.desc(names[0], fuel);
            let rest = self.closure_list(names.drop_first(), fuel);
            assert(self.has_group(names[0]));
            self.lemma_desc_children_exist(self.group_named(names[0]).children, fuel);
            self.lemma_closure_elements_exist(names.drop_first(), fuel);
            let out = self.closure_list(names, fuel)->Found_0;
            assert(out == seq![names[0]] + d->Found_0 + rest->Found_0);
            assert forall|k: int| 0 <= k < out.len() implies self.has_group(
                #[trigger] out[k],
            ) by {
                if k == 0 {
                    assert(out[k] == names[0]);
                } else if k < 1 + d->Found_0.len() {
                    assert(out[k] == d->Found_0[k - 1]);
                } else {
                    assert(out[k] == rest->Found_0[k - 1 - d->Found_0.len()]);
                }
            }
        }
    }
}

/// Filtering to the entries of `keep` keeps only existing entries and
/// preserves duplicate-freedom.
pub proof fn lemma_keep_contained_props(v: Seq<Seq<char>>, keep: Seq<Seq<char>>)
    ensures
        forall|x: Seq<char>| #[trigger]
            keep_contained(v, keep).contains(x) ==> v.contains(x) && keep.contains(x),
        v.no_duplicates() ==> keep_contained(v, keep).no_duplicates(),
    decreases v.len(),
{
    broadcast use vstd::seq_lib::group_filter_ensures;

    if v.len() == 0 {
        reveal(Seq::filter);
    } else {
        let rest = v.drop_last();
        let last = v.last();
        assert(rest.no_duplicates() || !v.no_duplicates()) by {
            if v.no_duplicates() {
                assert forall|i: int, j: int|
                    0 <= i < rest.len() && 0 <= j < rest.len() && i != j implies rest[i]
                    != rest[j] by {
                    assert(rest[i] == v[i] && rest[j] == v[j]);
                }
            }
        }
        lemma_keep_contained_props(rest, keep);
        lemma_keep_contained_push(rest, keep, last);
        assert(rest.push(last) =~= v);
        let fr = keep_contained(rest, keep);
        assert forall|x: Seq<char>| #[trigger]
            keep_contained(v, keep).contains(x) implies v.contains(x) && keep.contains(x) by {
            if keep.contains(last) {
                assert(keep_contained(v, keep) =~= fr.push(last));
                if x == last {
                    assert(v[v.len() - 1] == last);
                } else {
                    let k = choose|k: int|
                        0 <= k < keep_contained(v, keep).len() && keep_contained(v, keep)[k] == x;
                    assert(fr[k] == x);
                    assert(fr.contains(x));
                    assert(rest.contains(x));
                    let m = choose|m: int| 0 <= m < rest.len() && rest[m] == x;
                    assert(v[m] == x);
                }
            } else {
                assert(keep_contained(v, keep) =~= fr);
                assert(fr.contains(x));
                assert(rest.contains(x));
                let m = choose|m: int| 0 <= m < rest.len() && rest[m] == x;
                assert(v[m] == x);
            }
        }
        if v.no_duplicates() {
            if keep.contains(last) {
                assert(keep_contained(v, keep) =~= fr.push(last));
                assert(!fr.contains(last)) by {
                    if fr.contains(last) {
                        assert(rest.contains(last));
                        let m = choose|m: int| 0 <= m < rest.len() && rest[m] == last;
                        assert(v[m] == v[v.len() - 1]);
                    }
                }
                assert(fr.push(last).no_duplicates()) by {
                    assert forall|i: int, j: int|
                        0 <= i < fr.push(last).len() && 0 <= j < fr.push(last).len() && i
                        != j implies fr.push(last)[i] != fr.push(last)[j] by {
                        if i < fr.len() && j < fr.len() {
                        } else if i == fr.len() {
                            if fr.push(last)[j] == last {
                                assert(fr[j] == last);
                                assert(fr.contains(last));
                            }
                        } else {
                            if fr.push(last)[i] == last {
                                assert(fr[i] == last);
                                assert(fr.contains(last));
                            }
                        }
                    }
                }
            } else {
                assert(keep_contained(v, keep) =~= fr);
            }
        }
    }
}

/// Filtering out the entries of `banned` keeps only existing entries and
/// preserves duplicate-freedom.
pub proof fn lemma_drop_contained_props(v: Seq<Seq<char>>, banned: Seq<Seq<char>>)
    ensures
        forall|x: Seq<char>| #[trigger]
            drop_contained(v, banned).contains(x) ==> v.contains(x) && !banned.contains(x),
        v.no_duplicates() ==> drop_contained(v, banned).no_duplicates(),
    decreases v.len(),
{
    broadcast use vstd::seq_lib::group_filter_ensures;

    if v.len() == 0 {
        reveal(Seq::filter);
    } else {
        let rest = v.drop_last();
        let last = v.last();
        assert(rest.no_duplicates() || !v.no_duplicates()) by {
            if v.no_duplicates() {
                assert forall|i: int, j: int|
                    0 <= i < rest.len() && 0 <= j < rest.len() && i != j implies rest[i]
                    != rest[j] by {
                    assert(rest[i] == v[i] && rest[j] == v[j]);
                }
            }
        }
        lemma_drop_contained_props(rest, banned);
        lemma_drop_contained_push(rest, banned, last);
        assert(rest.push(last) =~= v);
        let fr = drop_contained(rest, banned);
        assert forall|x: Seq<char>| #[trigger]
            drop_contained(v, banned).contains(x) implies v.contains(x) && !banned.contains(
            x,
        ) by {
            if !banned.contains(last) {
                assert(drop_contained(v, banned) =~= fr.push(last));
                if x == last {
                    assert(v[v.len() - 1] == last);
                } else {
                    let k = choose|k: int|
                        0 <= k < drop_contained(v, banned).len() && drop_contained(v, banned)[k]
                            == x;
                    assert(fr[k] == x);
                    assert(fr.contains(x));
                    assert(rest.contains(x));
                    let m = choose|m: int| 0 <= m < rest.len() && rest[m] == x;
                    assert(v[m] == x);
                }
            } else {
                assert(drop_contained(v, banned) =~= fr);
                assert(fr.contains(x));
                assert(rest.contains(x));
                let m = choose|m: int| 0 <= m < rest.len() && rest[m] == x;
                assert(v[m] == x);
            }
        }
        if v.no_duplicates() {
            if !banned.contains(last) {
                assert(drop_contained(v, banned) =~= fr.push(last));
                assert(!fr.contains(last)) by {
                    if fr.contains(last) {
                        assert(rest.contains(last));
                        let m = choose|m: int| 0 <= m < rest.len() && rest[m] == last;
                        assert(v[m] == v[v.len() - 1]);
                    }
                }
                assert(fr.push(last).no_duplicates()) by {
                    assert forall|i: int, j: int|
                        0 <= i < fr.push(last).len() && 0 <= j < fr.push(last).len() && i
                        != j implies fr.push(last)[i] != fr.push(last)[j] by {
                        if i < fr.len() && j < fr.len() {
                        } else if i == fr.len() {
                            if fr.push(last)[j] == last {
                                assert(fr[j] == last);
                                assert(fr.contains(last));
                            }
                        } else {
                            if fr.push(last)[i] == last {
                                assert(fr[i] == last);
                                assert(fr.contains(last));
                            }
                        }
                    }
                }
            } else {
                assert(drop_contained(v, banned) =~= fr);
            }
        }
    }
}

impl Project {
    /// A fresh store: no groups, nothing watched, no information set.
    pub fn new() -> (p: Project)
        ensures
            p@ == ProjectView::empty(),
            p@.wf(),
    {
        let p = Project {
            groups: Vec::new(),
            active_groups: Vec::new(),
            information: ProjectInfo { title: None, description: None, repo: None },
        };
        proof {
            assert(p@ =~= ProjectView::empty());
        }
        p
    }

    /// Index of the first group named `name`, if any.
    pub fn find_group(&self, name: &String) -> (r: Option<usize>)
        ensures
            match r {
                Some(i) => self@.has_group(name@) && i == self@.idx_of(name@),
                None => !self@.has_group(name@),
            },
    {
        let n = self.groups.len();
        for i in 0..n
            invariant
                n == self.groups.len(),
                forall|j: int| 0 <= j < i ==> self@.names()[j] != name@,
        {
            if self.groups[i].name == *name {
                proof {
                    assert(self@.names()[i as int] == name@);
                    lemma_first_name_idx(self@.names(), name@);
                }
                return Some(i);
            }
            proof {
                assert(self@.names()[i as int] == self.groups@[i as int]@.name);
            }
        }
        proof {
            assert forall|j: int| 0 <= j < self@.names().len() implies self@.names()[j]
                != name@ by {}
        }
        None
    }

    /// Whether a group named `name` exists.
    pub fn contains_group(&self, name: &String) -> (b: bool)
        ensures
            b == self@.has_group(name@),
    {
        self.find_group(name).is_some()
    }

    /// The group named `name`, copied out of the store.
    ///
    /// Callers must have checked that the group exists.
    pub fn get_group(&self, name: &str) -> (g: Group)
        requires
            self@.has_group(name@),
        ensures
            g@ == self@.group_named(name@),
    {
        let key: String = name.to_owned();
        let idx = match self.find_group(&key) {
            Some(i) => i,
            None => {
                proof {
                    assert(false);
                }
                0
            },
        };
        proof {
            lemma_first_name_idx(self@.names(), name@);
        }
        clone_group(&self.groups[idx])
    }

    /// One step of the resolver: the pre-order walk of `pending` from index
    /// `start` on, with at most `fuel` levels of nesting below this one.
    fn desc_walk(&self, pending: &Vec<String>, start: usize, fuel: usize) -> (r: Result<
        Vec<String>,
        Error,
    >)
        requires
            start <= pending@.len(),
        ensures
            desc_matches(r, self@.desc_children(str_views(pending@).skip(start as int), fuel as nat)),
        decreases fuel, pending@.len() - start,
    {
        let ghost pend = str_views(pending@).skip(start as int);
        if start >= pending.len() {
            proof {
                assert(pend =~= Seq::<Seq<char>>::empty());
            }
            let out: Vec<String> = Vec::new();
            proof {
                assert(str_views(out@) =~= Seq::<Seq<char>>::empty());
            }
            Ok(out)
        } else if fuel == 0 {
            Err(Error::CycleDetected)
        } else {
            proof {
                assert(pend[0] == pending@[start as int]@);
            }
            let head: &String = &pending[start];
            match self.find_group(head) {
                None => Err(Error::NotFound(head.clone())),
                Some(idx) => {
                    proof {
                        lemma_first_name_idx(self@.names(), head@);
                        assert(self@.groups[idx as int] == self.groups@[idx as int]@);
                        assert(self@.group_named(head@).children == str_views(
                            self.groups@[idx as int].groups@,
                        ));
                    }
                    let mut sub = match self.desc_walk(&self.groups[idx].groups, 0, fuel - 1) {
                        Ok(v) => v,
                        Err(e) => {
                            proof {
                                assert(str_views(self.groups@[idx as int].groups@).skip(0)
                                    =~= self@.group_named(head@).children);
                            }
                            return Err(e);
                        },
                    };
                    proof {
                        assert(str_views(self.groups@[idx as int].groups@).skip(0)
                            =~= self@.group_named(head@).children);
                    }
                    let ghost sub0 = str_views(sub@);
                    let mut rest = match self.desc_walk(pending, start + 1, fuel) {
                        Ok(v) => v,
                        Err(e) => {
                            proof {
                                assert(str_views(pending@).skip(start + 1) =~= pend.drop_first());
                            }
                            return Err(e);
                        },
                    };
                    proof {
                        assert(str_views(pending@).skip(start + 1) =~= pend.drop_first());
                    }
                    let ghost rest0 = str_views(rest@);
                    let mut out: Vec<String> = Vec::new();
                    out.push(head.clone());
                    out.append(&mut sub);
                    out.append(&mut rest);
                    proof {
                        assert(str_views(out@) =~= seq![pend[0]] + sub0 + rest0);
                    }
                    Ok(out)
                },
            }
        }
    }

    /// The full descendant closure of the group named `group_name`, in
    /// depth-first pre-order, the group itself excluded.
    ///
    /// Fails with [`Error::NotFound`] when the group, or any child reference
    /// reached from it, does not exist, and with [`Error::CycleDetected`]
    /// when the nesting exceeds the number of groups in the store, which
    /// only a cyclic child graph can bring about.
    pub fn get_group_descendants(&self, group_name: &str) -> (r: Result<Vec<String>, Error>)
        ensures
            desc_matches(r, self@.desc(group_name@, self@.groups.len() as nat)),
    {
        let key: String = group_name.to_owned();
        match self.find_group(&key) {
            None => Err(Error::NotFound(key)),
            Some(idx) => {
                proof {
                    lemma_first_name_idx(self@.names(), key@);
                    assert(self@.groups[idx as int] == self.groups@[idx as int]@);
                    assert(str_views(self.groups@[idx as int].groups@).skip(0)
                        =~= self@.group_named(key@).children);
                }
                self.desc_walk(&self.groups[idx].groups, 0, self.groups.len())
            },
        }
    }

    /// The group names, in store order.
    pub fn group_names(&self) -> (r: Vec<String>)
        ensures
            str_views(r@) == self@.names(),
    {
        let mut r: Vec<String> = Vec::new();
        let n = self.groups.len();
        for i in 0..n
            invariant
                n == self.groups@.len(),
                r@.len() == i,
                forall|j: int| 0 <= j < i ==> r@[j]@ == self@.names()[j],
        {
            r.push(self.groups[i].name.clone());
            proof {
                assert(self@.names()[i as int] == self.groups@[i as int]@.name);
            }
        }
        proof {
            assert(str_views(r@) =~= self@.names());
        }
        r
    }

    /// The cleanup pass: strip every child-list entry that no longer
    /// resolves to an existing group.  Idempotent, and a no-op on groups
    /// without dangling children.
    pub fn clean(&mut self)
        ensures
            final(self)@ == old(self)@.cleaned(),
    {
        let names = self.group_names();
        let mut new_groups: Vec<Group> = Vec::new();
        let n = self.groups.len();
        for i in 0..n
            invariant
                *self == *old(self),
                n == self.groups@.len(),
                str_views(names@) == self@.names(),
                group_views(new_groups@) == old(self)@.cleaned().groups.take(i as int),
        {
            let g = &self.groups[i];
            let kept = retain_present(&g.groups, &names);
            let ghost pre = group_views(new_groups@);
            new_groups.push(
                Group {
                    name: g.name.clone(),
                    notes: clone_notes(&g.notes),
                    tasks: clone_tasks(&g.tasks),
                    groups: kept,
                },
            );
            proof {
                let target = old(self)@.cleaned().groups;
                assert(group_views(new_groups@) =~= pre.push(
                    group_views(new_groups@)[i as int],
                ));
                assert(group_views(new_groups@)[i as int] =~= target[i as int]);
                assert(group_views(new_groups@) =~= target.take(i + 1));
            }
        }
        self.groups = new_groups;
        proof {
            assert(old(self)@.cleaned().groups.take(n as int) =~= old(self)@.cleaned().groups);
            assert(final(self)@ =~= old(self)@.cleaned());
        }
    }

    /// The group carrying each of `names`, copied out in order; the first
    /// unknown name fails the whole call.
    pub fn collect_groups(&self, names: &Vec<String>) -> (r: Result<Vec<Group>, Error>)
        ensures
            match r {
                Ok(v) => first_unknown(self@, str_views(names@)) == names@.len() && group_views(
                    v@,
                ) == groups_of(self@, str_views(names@)),
                Err(e) => first_unknown(self@, str_views(names@)) < names@.len() && (e
                    matches Error::NotFound(n) && n@ == str_views(names@)[first_unknown(
                    self@,
                    str_views(names@),
                )]),
            },
    {
        let ghost nv = str_views(names@);
        let mut out: Vec<Group> = Vec::new();
        let n = names.len();
        proof {
            lemma_first_unknown(self@, nv);
        }
        for i in 0..n
            invariant
                n == names@.len(),
                nv == str_views(names@),
                forall|j: int| 0 <= j < i ==> self@.has_group(#[trigger] nv[j]),
                out@.len() == i,
                forall|j: int| 0 <= j < i ==> group_views(out@)[j] == groups_of(self@, nv)[j],
        {
            proof {
                assert(nv[i as int] == names@[i as int]@);
            }
            match self.find_group(&names[i]) {
                None => {
                    proof {
                        lemma_first_unknown(self@, nv);
                        assert forall|j: int|
                            0 <= j < first_unknown(self@, nv) implies self@.has_group(
                            #[trigger] nv[j],
                        ) by {}
                        if first_unknown(self@, nv) < i {
                            assert(self@.has_group(nv[first_unknown(self@, nv)]));
                        }
                        assert(first_unknown(self@, nv) == i);
                    }
                    return Err(Error::NotFound(names[i].clone()));
                },
                Some(idx) => {
                    proof {
                        lemma_first_name_idx(self@.names(), nv[i as int]);
                    }
                    let ghost pre = group_views(out@);
                    out.push(clone_group(&self.groups[idx]));
                    proof {
                        assert(pre.len() == i as int);
                        assert(out@.len() == i + 1);
                        assert(group_views(out@)[i as int] == self.groups@[idx as int]@);
                        assert(groups_of(self@, nv)[i as int] == self@.group_named(nv[i as int]));
                        assert forall|j: int| 0 <= j < i + 1 implies group_views(out@)[j]
                            == groups_of(self@, nv)[j] by {
                            if j < i {
                                assert(group_views(out@)[j] == pre[j]);
                            }
                        }
                    }
                },
            }
        }
        proof {
            lemma_first_unknown(self@, nv);
            if first_unknown(self@, nv) < nv.len() {
                assert(self@.has_group(nv[first_unknown(self@, nv)]));
            }
            assert(group_views(out@) =~= groups_of(self@, nv));
        }
        Ok(out)
    }

    /// Every name of `names` from index `start` on, each followed by its
    /// descendant closure.
    pub(crate) fn closure_walk(&self, names: &Vec<String>, start: usize) -> (r: Result<
        Vec<String>,
        Error,
    >)
        requires
            start <= names@.len(),
        ensures
            desc_matches(
                r,
                self@.closure_list(str_views(names@).skip(start as int), self@.groups.len() as nat),
            ),
        decreases names@.len() - start,
    {
        let ghost pend = str_views(names@).skip(start as int);
        if start >= names.len() {
            proof {
                assert(pend =~= Seq::<Seq<char>>::empty());
            }
            let out: Vec<String> = Vec::new();
            proof {
                assert(str_views(out@) =~= Seq::<Seq<char>>::empty());
            }
            Ok(out)
        } else {
            proof {
                assert(pend[0] == names@[start as int]@);
            }
            let mut d = match self.get_group_descendants(names[start].as_str()) {
                Ok(v) => v,
                Err(e) => {
                    return Err(e);
                },
            };
            let ghost d0 = str_views(d@);
            let mut rest = match self.closure_walk(names, start + 1) {
                Ok(v) => v,
                Err(e) => {
                    proof {
                        assert(str_views(names@).skip(start + 1) =~= pend.drop_first());
                    }
                    return Err(e);
                },
            };
            proof {
                assert(str_views(names@).skip(start + 1) =~= pend.drop_first());
            }
            let ghost rest0 = str_views(rest@);
            let mut out: Vec<String> = Vec::new();
            out.push(names[start].clone());
            out.append(&mut d);
            out.append(&mut rest);
            proof {
                assert(str_views(out@) =~= seq![pend[0]] + d0 + rest0);
            }
            Ok(out)
        }
    }
}

impl Group {
    /// A fresh, empty group carrying `name`.
    pub fn new(name: &str) -> (g: Group)
        ensures
            g@ == (GroupView {
                name: name@,
                notes: Seq::empty(),
                tasks: Seq::empty(),
                children: Seq::empty(),
            }),
    {
        let g = Group {
            name: name.to_owned(),
            notes: Vec::new(),
            tasks: Vec::new(),
            groups: Vec::new(),
        };
        proof {
            assert(g@ =~= (GroupView {
                name: name@,
                notes: Seq::empty(),
                tasks: Seq::empty(),
                children: Seq::empty(),
            }));
        }
        g
    }
}

impl Note {
    /// A note holding `note`.
    pub fn new(note: &str) -> (n: Note)
        ensures
            n@ == note@,
    {
        Note { note: note.to_owned() }
    }
}

impl Task {
    /// A not-yet-completed task holding `task`.
    pub fn new(task: &str) -> (t: Task)
        ensures
            t@ == (TaskView { text: task@, state: TaskState::Incomplete }),
    {
        Task { task: task.to_owned(), state: TaskState::Incomplete }
    }
}

impl ProjectView {
    /// `rank` witnesses that the child graph is acyclic: every child ranks
    /// strictly below its parent.
    pub open spec fn ranked(self, rank: Map<Seq<char>, nat>) -> bool {
        forall|i: int, j: int|
            0 <= i < self.groups.len() && 0 <= j < self.groups[i].children.len() ==> rank[
                #[trigger] self.groups[i].children[j]
            ] < rank[self.groups[i].name]
    }

    /// On a store whose child graph admits a rank, a walk started below the
    /// depth bound can never exhaust it.
    pub proof fn lemma_ranked_no_depth(
        self,
        rank: Map<Seq<char>, nat>,
        pending: Seq<Seq<char>>,
        fuel: nat,
    )
        requires
            self.ranked(rank),
            forall|k: int| 0 <= k < pending.len() ==> rank[#[trigger] pending[k]] < fuel,
        ensures
            !(self.desc_children(pending, fuel) is Depth),
        decreases fuel, pending.len(),
    {
        if pending.len() > 0 {
            assert(rank[pending[0]] < fuel);
            if self.has_group(pending[0]) {
                lemma_first_name_idx(self.names(), pending[0]);
                let idx = self.idx_of(pending[0]);
                let g = self.groups[idx];
                assert(g.name == pending[0]);
                assert forall|k: int| 0 <= k < g.children.len() implies rank[
                    #[trigger] g.children[k]
                ] < (fuel - 1) as nat by {
                    assert(rank[g.children[k]] < rank[g.name]);
                }
                self.lemma_ranked_no_depth(rank, g.children, (fuel - 1) as nat);
                assert forall|k: int| 0 <= k < pending.drop_first().len() implies rank[
                    #[trigger] pending.drop_first()[k]
                ] < fuel by {
                    assert(pending.drop_first()[k] == pending[k + 1]);
                }
                self.lemma_ranked_no_depth(rank, pending.drop_first(), fuel);
            }
        }
    }

    /// The cycle error is only a safety net: on a store whose child graph
    /// admits a rank below the depth bound, resolving descendants never
    /// reports `CycleDetected`.
    pub proof fn lemma_acyclic_never_cycles(
        self,
        rank: Map<Seq<char>, nat>,
        name: Seq<char>,
        fuel: nat,
    )
        requires
            self.ranked(rank),
            rank[name] <= fuel,
        ensures
            !(self.desc(name, fuel) is Depth),
    {
        if self.has_group(name) {
            lemma_first_name_idx(self.names(), name);
            let g = self.group_named(name);
            assert(g.name == name);
            assert forall|k: int| 0 <= k < g.children.len() implies rank[
                #[trigger] g.children[k]
            ] < fuel by {
                assert(rank[g.children[k]] < rank[g.name]);
            }
            self.lemma_ranked_no_depth(rank, g.children, fuel);
        }
    }
}

/// Two exclusion filters that ban the same names keep the same entries.
pub proof fn lemma_drop_contained_congruent(
    v: Seq<Seq<char>>,
    banned1: Seq<Seq<char>>,
    banned2: Seq<Seq<char>>,
)
    requires
        forall|x: Seq<char>| #[trigger] banned1.contains(x) == banned2.contains(x),
    ensures
        drop_contained(v, banned1) == drop_contained(v, banned2),
    decreases v.len(),
{
    reveal(Seq::filter);
    if v.len() == 0 {
        assert(drop_contained(v, banned1) =~= drop_contained(v, banned2));
    } else {
        lemma_drop_contained_congruent(v.drop_last(), banned1, banned2);
        assert(drop_contained(v, banned1) =~= drop_contained(v, banned2));
    }
}

/// A membership filter keeps everything when every entry is present in
/// `keep`.
pub proof fn lemma_keep_contained_noop(v: Seq<Seq<char>>, keep: Seq<Seq<char>>)
    requires
        forall|j: int| 0 <= j < v.len() ==> keep.contains(#[trigger] v[j]),
    ensures
        keep_contained(v, keep) == v,
    decreases v.len(),
{
    reveal(Seq::filter);
    if v.len() == 0 {
        assert(keep_contained(v, keep) =~= v);
    } else {
        let rest = v.drop_last();
        assert forall|j: int| 0 <= j < rest.len() implies keep.contains(#[trigger] rest[j]) by {
            assert(rest[j] == v[j]);
        }
        lemma_keep_contained_noop(rest, keep);
        assert(keep.contains(v.last()));
        assert(keep_contained(v, keep) =~= v);
    }
}

impl ProjectView {
    /// The cleanup pass touches nothing in a store without dangling child
    /// references.
    pub proof fn lemma_cleaned_noop(self)
        requires
            forall|i: int| 0 <= i < self.groups.len() ==> self.children_ok(#[trigger] self.groups[i]),
        ensures
            self.cleaned() == self,
    {
        assert forall|i: int| 0 <= i < self.groups.len() implies self.cleaned().groups[i]
            =~= self.groups[i] by {
            assert(self.children_ok(self.groups[i]));
            lemma_keep_contained_noop(self.groups[i].children, self.names());
        }
        assert(self.cleaned() =~= self);
    }

    /// The cleanup pass is idempotent.
    pub proof fn lemma_cleaned_idempotent(self)
        ensures
            self.cleaned().cleaned() == self.cleaned(),
    {
        let c = self.cleaned();
        assert(c.names() =~= self.names());
        assert forall|i: int| 0 <= i < c.groups.len() implies c.cleaned().groups[i]
            =~= c.groups[i] by {
            broadcast use vstd::seq_lib::group_filter_ensures;

            let ch = c.groups[i].children;
            assert(ch == keep_contained(self.groups[i].children, self.names()));
            assert forall|j: int| 0 <= j < ch.len() implies c.names().contains(
                #[trigger] ch[j],
            ) by {
                assert(ch[j] == self.groups[i].children.filter(
                    |x: Seq<char>| self.names().contains(x),
                )[j]);
                assert(self.names().contains(ch[j]));
            }
            lemma_keep_contained_noop(ch, c.names());
        }
        assert(c.cleaned() =~= c);
    }
}

/// The first index of `names` whose entry is no group of the store; the
/// length when every entry is one.
pub open spec fn first_unknown(pv: ProjectView, names: Seq<Seq<char>>) -> int
    decreases names.len(),
{
    if names.len() == 0 {
        0
    } else if !pv.has_group(names[0]) {
        0
    } else {
        1 + first_unknown(pv, names.drop_first())
    }
}

/// What `first_unknown` finds: the least index of an unknown name, or the
/// length when every name is known.
pub proof fn lemma_first_unknown(pv: ProjectView, names: Seq<Seq<char>>)
    ensures
        0 <= first_unknown(pv, names) <= names.len(),
        forall|j: int| 0 <= j < first_unknown(pv, names) ==> pv.has_group(#[trigger] names[j]),
        first_unknown(pv, names) < names.len() ==> !pv.has_group(
            names[first_unknown(pv, names)],
        ),
    decreases names.len(),
{
    if names.len() > 0 && pv.has_group(names[0]) {
        let rest = names.drop_first();
        lemma_first_unknown(pv, rest);
        let i = first_unknown(pv, names);
        assert(i == 1 + first_unknown(pv, rest));
        assert forall|j: int| 0 <= j < i implies pv.has_group(#[trigger] names[j]) by {
            if j > 0 {
                assert(rest[j - 1] == names[j]);
                assert(pv.has_group(rest[j - 1]));
            }
        }
        if i < names.len() {
            assert(names[i] == rest[i - 1]);
        }
    }
}

/// The group carrying each of `names`, in order (meaningful only when all
/// of them exist).
pub open spec fn groups_of(pv: ProjectView, names: Seq<Seq<char>>) -> Seq<GroupView> {
    names.map(|i: int, n: Seq<char>| pv.group_named(n))
}

/// Replacing a group by one with the same name and children keeps the
/// store well-formed.
pub proof fn lemma_update_same_shape_wf(pv: ProjectView, idx: int, g: GroupView)
    requires
        pv.wf(),
        0 <= idx < pv.groups.len(),
        g.name == pv.groups[idx].name,
        g.children == pv.groups[idx].children,
    ensures
        (ProjectView { groups: pv.groups.update(idx, g), ..pv }).wf(),
{
    let post = ProjectView { groups: pv.groups.update(idx, g), ..pv };
    assert(post.names() =~= pv.names());
    assert forall|i: int| 0 <= i < post.active.len() implies post.has_group(
        #[trigger] post.active[i],
    ) by {
        assert(pv.has_group(pv.active[i]));
    }
    assert forall|i: int| 0 <= i < post.groups.len() implies post.children_ok(
        #[trigger] post.groups[i],
    ) by {
        assert(pv.children_ok(pv.groups[i]));
        assert(post.groups[i].children == pv.groups[i].children);
        assert forall|j: int| 0 <= j < post.groups[i].children.len() implies post.has_group(
            #[trigger] post.groups[i].children[j],
        ) by {
            assert(pv.has_group(pv.groups[i].children[j]));
        }
    }
}

impl Project {
    /// Replace the group at `idx`, keeping every other group.
    pub(crate) fn replace_group(&mut self, idx: usize, g: Group)
        requires
            idx < old(self).groups@.len(),
        ensures
            final(self)@ == (ProjectView {
                groups: old(self)@.groups.update(idx as int, g@),
                ..old(self)@
            }),
    {
        let ghost pre = self@;
        let ghost gv = g@;
        let n = self.groups.len();
        let mut new_groups: Vec<Group> = Vec::new();
        proof {
            assert(group_views(new_groups@) =~= pre.groups.update(idx as int, gv).take(0));
        }
        for j in 0..n
            invariant
                *self == *old(self),
                pre == self@,
                n == self.groups@.len(),
                idx < n,
                group_views(new_groups@) == pre.groups.update(idx as int, gv).take(j as int),
                gv == g@,
        {
            let ghost pre_k = group_views(new_groups@);
            if j == idx {
                new_groups.push(clone_group(&g));
            } else {
                new_groups.push(clone_group(&self.groups[j]));
            }
            proof {
                let target = pre.groups.update(idx as int, gv);
                assert(pre_k.len() == j as int);
                assert(new_groups@.len() == j + 1);
                assert(group_views(new_groups@)[j as int] == target[j as int]);
                assert(group_views(new_groups@) =~= pre_k.push(group_views(new_groups@)[j as int]));
                assert(group_views(new_groups@) =~= target.take(j + 1));
            }
        }
        self.groups = new_groups;
        proof {
            let target = pre.groups.update(idx as int, gv);
            assert(target.take(n as int) =~= target);
            assert(final(self)@ =~= (ProjectView { groups: target, ..pre }));
        }
    }
}

/// A copy of a string vector whose model is unchanged.
pub fn clone_strings(v: &Vec<String>) -> (r: Vec<String>)
    ensures
        str_views(r@) == str_views(v@),
{
    let mut r: Vec<String> = Vec::new();
    let n = v.len();
    for i in 0..n
        invariant
            n == v.len(),
            r@.len() == i,
            forall|j: int| 0 <= j < i ==> r@[j]@ == v@[j]@,
    {
        r.push(v[i].clone());
    }
    proof {
        assert(str_views(r@) =~= str_views(v@));
    }
    r
}

/// A copy of a note vector whose model is unchanged.
pub fn clone_notes(v: &Vec<Note>) -> (r: Vec<Note>)
    ensures
        note_views(r@) == note_views(v@),
{
    let mut r: Vec<Note> = Vec::new();
    let n = v.len();
    for i in 0..n
        invariant
            n == v.len(),
            r@.len() == i,
            forall|j: int| 0 <= j < i ==> r@[j]@ == v@[j]@,
    {
        r.push(Note { note: v[i].note.clone() });
    }
    proof {
        assert(note_views(r@) =~= note_views(v@));
    }
    r
}

/// A copy of a task vector whose model is unchanged.
pub fn clone_tasks(v: &Vec<Task>) -> (r: Vec<Task>)
    ensures
        task_views(r@) == task_views(v@),
{
    let mut r: Vec<Task> = Vec::new();
    let n = v.len();
    for i in 0..n
        invariant
            n == v.len(),
            r@.len() == i,
            forall|j: int| 0 <= j < i ==> r@[j]@ == v@[j]@,
    {
        r.push(Task { task: v[i].task.clone(), state: v[i].state });
    }
    proof {
        assert(task_views(r@) =~= task_views(v@));
    }
    r
}

/// A copy of a group whose model is unchanged.
pub fn clone_group(g: &Group) -> (r: Group)
    ensures
        r@ == g@,
{
    let r = Group {
        name: g.name.clone(),
        notes: clone_notes(&g.notes),
        tasks: clone_tasks(&g.tasks),
        groups: clone_strings(&g.groups),
    };
    proof {
        assert(r@ =~= g@);
    }
    r
}

} // verus!
