use vstd::prelude::*;
use crate::shell::{opt_string_view, shell_args, strings_view, LOGIN_ARG, DEFAULT_SHELL_CMD, fallback_after_failure};
use crate::scroll::{ScrollState, TabScrollState};
use crate::tab::{Tab, TerminalBackendExt};
use crate::text::{decimal, decimal_digits};
use vstd::string::StringExecFns;

verus! {

/// A session as the persisted snapshot records it.
#[derive(Clone, Copy, PartialEq, Eq, Structural)]
pub struct TabInfo {
    pub id: u64,
    pub is_agent: bool,
}

/// A group as the persisted snapshot records it.
pub struct TabGroup {
    pub id: u64,
    pub name: String,
    pub path: String,
    pub tabs: Vec<TabInfo>,
}

/// What a group is: its id, name, path and ordered sessions.
pub struct GroupModel {
    pub id: u64,
    pub name: Seq<char>,
    pub path: Seq<char>,
    pub tabs: Seq<TabInfo>,
}

/// The last component of a path, as `std::path::Path::file_name` finds it,
/// when it has one that is valid text.
pub uninterp spec fn file_name_of(path: Seq<char>) -> Option<Seq<char>>;

/// Relies on `std::path::Path::file_name`: the final component of the path,
/// if there is one (none for a root, an empty path or one ending in `..`).
#[verifier::external_body]
fn path_file_name(path: &str) -> (r: Option<String>)
    ensures
        opt_string_view(r) == file_name_of(path@),
{
    std::path::Path::new(path).file_name().and_then(|n| n.to_str()).map(|n| n.to_string())
}

/// The display name of a group rooted at `path`: its last component, or the
/// whole path when it has none.
pub open spec fn name_for(path: Seq<char>) -> Seq<char> {
    match file_name_of(path) {
        Some(n) => n,
        None => path,
    }
}

impl TabGroup {
    pub open spec fn model(&self) -> GroupModel {
        GroupModel { id: self.id, name: self.name@, path: self.path@, tabs: self.tabs@ }
    }

    /// An empty group.
    pub fn new(id: u64, name: String, path: String) -> (r: TabGroup)
        ensures
            r.model() == (GroupModel { id, name: name@, path: path@, tabs: Seq::empty() }),
    {
        TabGroup { id, name, path, tabs: Vec::new() }
    }

    /// The display name of a group rooted at `path`.
    pub fn name_from_path(path: &String) -> (r: String)
        ensures
            r@ == name_for(path@),
    {
        match path_file_name(path.as_str()) {
            Some(n) => n,
            None => path.clone(),
        }
    }
}

/// A live group: its sessions own their backends.
pub struct LiveGroup<B> {
    pub id: u64,
    pub name: String,
    pub path: String,
    pub tabs: Vec<Tab<B>>,
}

/// The record of a live session.
pub open spec fn info_of<B>(t: Tab<B>) -> TabInfo {
    TabInfo { id: t.id, is_agent: t.is_agent }
}

impl<B> LiveGroup<B> {
    pub open spec fn infos(&self) -> Seq<TabInfo> {
        self.tabs@.map_values(|t: Tab<B>| info_of(t))
    }

    pub open spec fn model(&self) -> GroupModel {
        GroupModel { id: self.id, name: self.name@, path: self.path@, tabs: self.infos() }
    }

    pub open spec fn has_tab(&self, t: u64) -> bool {
        exists|a: int| 0 <= a < self.tabs@.len() && self.tabs@[a].id == t
    }
}

/// What a session's backend is spawned with, and where the session goes.
pub struct SpawnRequest {
    pub tab_id: u64,
    pub group_id: u64,
    pub is_agent: bool,
    pub shell: String,
    pub args: Vec<String>,
    pub working_directory: String,
}

impl SpawnRequest {
    /// The request to make after this one failed to spawn: the same with the
    /// default shell, or none when the default shell itself failed.
    pub fn retry_after_failure(self) -> (r: Option<SpawnRequest>)
        ensures
            r is None <==> self.shell@ == DEFAULT_SHELL_CMD@,
            r matches Some(q) ==> q.shell@ == DEFAULT_SHELL_CMD@ && q.tab_id == self.tab_id
                && q.group_id == self.group_id && q.is_agent == self.is_agent && q.args@ == self.args@
                && q.working_directory == self.working_directory,
    {
        match fallback_after_failure(self.shell.as_str()) {
            None => None,
            Some(shell) => Some(SpawnRequest { shell, ..self }),
        }
    }
}

/// A persisted group handed back for restoring, with the backend spawned
/// for each of its sessions (`backends[a]` for `group.tabs[a]`), or none
/// where spawning failed.
pub struct RestoredGroup<B> {
    pub group: TabGroup,
    pub backends: Vec<Option<B>>,
}

/// The sessions of `tabs` whose backend is present, in order.
pub open spec fn kept(tabs: Seq<TabInfo>, present: Seq<bool>) -> Seq<TabInfo>
    decreases tabs.len(),
{
    if tabs.len() == 0 {
        Seq::empty()
    } else {
        let rest = kept(tabs.drop_last(), present);
        if present[tabs.len() - 1] {
            rest.push(tabs.last())
        } else {
            rest
        }
    }
}

impl<B> RestoredGroup<B> {
    /// Which sessions got a backend.
    pub open spec fn present(&self) -> Seq<bool> {
        self.backends@.map_values(|o: Option<B>| o is Some)
    }

    /// The group as it stands once restored: the sessions without a backend
    /// are left out.
    pub open spec fn restored_model(&self) -> GroupModel {
        GroupModel { tabs: kept(self.group.tabs@, self.present()), ..self.group.model() }
    }
}

/// Whether a position (`k`, `y`) comes before (`i`, `a`) in reading order.
pub open spec fn before(k: int, y: int, i: int, a: int) -> bool {
    k < i || (k == i && y < a)
}

/// A snapshot that can be restored: group ids ascend strictly, no session
/// id repeats, and no id is the largest one, after which no counter could
/// move.
pub open spec fn snapshot_consistent(snap: Seq<GroupModel>) -> bool {
    &&& forall|i: int, j: int| 0 <= i < j < snap.len() ==> #[trigger] snap[i].id < #[trigger] snap[j].id
    &&& forall|i: int| 0 <= i < snap.len() ==> #[trigger] snap[i].id < u64::MAX
    &&& forall|i: int, a: int|
        0 <= i < snap.len() && 0 <= a < snap[i].tabs.len() ==> #[trigger] snap[i].tabs[a].id < u64::MAX
    &&& forall|i: int, a: int, j: int, b: int|
        0 <= i < snap.len() && 0 <= j < snap.len() && 0 <= a < snap[i].tabs.len() && 0 <= b
            < snap[j].tabs.len() && (i != j || a != b) ==> #[trigger] snap[i].tabs[a].id
            != #[trigger] snap[j].tabs[b].id
}

/// The persisted models of the groups handed back.
pub open spec fn persisted_models<B>(input: Seq<RestoredGroup<B>>) -> Seq<GroupModel> {
    input.map_values(|g: RestoredGroup<B>| g.group.model())
}

/// The groups handed back can be restored: the snapshot is consistent and
/// every session has its spawn outcome.
pub open spec fn restorable<B>(input: Seq<RestoredGroup<B>>) -> bool {
    &&& snapshot_consistent(persisted_models(input))
    &&& forall|i: int| 0 <= i < input.len() ==> (#[trigger] input[i]).backends@.len() == input[i].group.tabs@.len()
}

/// A position of a session in a snapshot.
pub open spec fn at(snap: Seq<GroupModel>, k: int, y: int) -> bool {
    0 <= k < snap.len() && 0 <= y < snap[k].tabs.len()
}

/// The sessions read before (`i`, `a`) have distinct ids, none the largest.
spec fn read_distinct(snap: Seq<GroupModel>, i: int, a: int) -> bool {
    &&& forall|k: int, y: int, j: int, b: int|
        at(snap, k, y) && at(snap, j, b) && before(k, y, i, a) && before(j, b, i, a) && (k != j || y
            != b) ==> #[trigger] snap[k].tabs[y].id != #[trigger] snap[j].tabs[b].id
    &&& forall|k: int, y: int| at(snap, k, y) && before(k, y, i, a) ==> #[trigger] snap[k].tabs[y].id < u64::MAX
}

/// `seen` holds exactly the ids of the sessions read before (`i`, `a`).
spec fn seen_exactly(snap: Seq<GroupModel>, i: int, a: int, seen: Seq<u64>) -> bool {
    forall|x: u64|
        seen.contains(x) <==> exists|k: int, y: int|
            at(snap, k, y) && before(k, y, i, a) && #[trigger] snap[k].tabs[y].id == x
}

/// `n` is one past the largest id read before (`i`, `a`), or 0.
pub open spec fn bound_of_read(snap: Seq<GroupModel>, i: int, a: int, n: u64) -> bool {
    &&& forall|k: int, y: int| at(snap, k, y) && before(k, y, i, a) ==> #[trigger] snap[k].tabs[y].id < n
    &&& (n == 0 || exists|k: int, y: int|
        at(snap, k, y) && before(k, y, i, a) && #[trigger] snap[k].tabs[y].id + 1 == n)
}

/// Whether `v` holds `x`.
fn contains_id(v: &Vec<u64>, x: u64) -> (r: bool)
    ensures
        r == v@.contains(x),
{
    let mut i: usize = 0;
    while i < v.len()
        invariant
            i <= v@.len(),
            forall|k: int| 0 <= k < i ==> v@[k] != x,
        decreases v.len() - i,
    {
        if v[i] == x {
            assert(v@[i as int] == x);
            return true;
        }
        i = i + 1;
    }
    false
}

/// The label of a session in the side panel: its place in its group when
/// it is listed there (else its id plus one), and its kind.
pub open spec fn tab_label(n: nat, is_agent: bool, listed: bool) -> Seq<char> {
    decimal_digits(n) + if is_agent {
        if listed {
            ". Agent \u{1F4AC}"@
        } else {
            ". \u{2795} Agent"@
        }
    } else {
        ". Terminal"@
    }
}

/// Group ids ascend strictly along `s`.
pub open spec fn ids_ascending<B>(s: Seq<RestoredGroup<B>>) -> bool {
    forall|i: int, j: int| 0 <= i < j < s.len() ==> #[trigger] s[i].group.id < #[trigger] s[j].group.id
}

/// `sorted` holds the groups of `orig` rearranged: `sorted[k]` is
/// `orig[perm[k]]`, and `inv` undoes `perm`.
pub open spec fn rearranged<B>(
    sorted: Seq<RestoredGroup<B>>,
    orig: Seq<RestoredGroup<B>>,
    perm: Seq<int>,
    inv: Seq<int>,
) -> bool {
    &&& sorted.len() == orig.len()
    &&& perm.len() == sorted.len()
    &&& inv.len() == orig.len()
    &&& forall|k: int|
        0 <= k < sorted.len() ==> 0 <= #[trigger] perm[k] < orig.len() && sorted[k] == orig[perm[k]] && inv[perm[k]]
            == k
    &&& forall|j: int| 0 <= j < orig.len() ==> 0 <= #[trigger] inv[j] < sorted.len() && perm[inv[j]] == j
}

/// A snapshot that can be restored, in any group order: no group id or
/// session id repeats, and none is the largest id, after which no counter
/// could move.
pub open spec fn snapshot_valid(snap: Seq<GroupModel>) -> bool {
    &&& forall|i: int, j: int| 0 <= i < snap.len() && 0 <= j < snap.len() && i != j ==> #[trigger] snap[i].id
        != #[trigger] snap[j].id
    &&& forall|i: int| 0 <= i < snap.len() ==> #[trigger] snap[i].id < u64::MAX
    &&& forall|i: int, a: int|
        0 <= i < snap.len() && 0 <= a < snap[i].tabs.len() ==> #[trigger] snap[i].tabs[a].id < u64::MAX
    &&& forall|i: int, a: int, j: int, b: int|
        0 <= i < snap.len() && 0 <= j < snap.len() && 0 <= a < snap[i].tabs.len() && 0 <= b
            < snap[j].tabs.len() && (i != j || a != b) ==> #[trigger] snap[i].tabs[a].id
            != #[trigger] snap[j].tabs[b].id
}

/// The groups handed back can be restored, in whatever order they come:
/// the snapshot is valid and every session has its spawn outcome.
pub open spec fn restorable_any<B>(input: Seq<RestoredGroup<B>>) -> bool {
    &&& snapshot_valid(persisted_models(input))
    &&& forall|i: int| 0 <= i < input.len() ==> (#[trigger] input[i]).backends@.len() == input[i].group.tabs@.len()
}

/// Puts the groups in ascending id order; none when two share an id.
fn sort_by_group_id<B>(input: Vec<RestoredGroup<B>>) -> (r: Option<Vec<RestoredGroup<B>>>)
    ensures
        r is None <==> exists|i: int, j: int|
            0 <= i < j < input@.len() && #[trigger] input@[i].group.id == #[trigger] input@[j].group.id,
        r matches Some(v) ==> ids_ascending(v@) && exists|perm: Seq<int>, inv: Seq<int>|
            rearranged(v@, input@, perm, inv),
        r matches Some(v) ==> (ids_ascending(input@) ==> v@ == input@),
{
    let ghost orig = input@;
    let mut pending = input;
    let total = pending.len();
    let mut sorted: Vec<RestoredGroup<B>> = Vec::new();
    let ghost mut perm: Seq<int> = Seq::empty();
    let ghost mut inv: Seq<int> = Seq::empty();
    let mut i: usize = 0;
    assert(pending@ =~= orig.skip(0));
    while pending.len() > 0
        invariant
            orig == input@,
            orig.len() == total,
            i <= orig.len(),
            pending@ == orig.skip(i as int),
            ids_ascending(sorted@),
            rearranged(sorted@, orig.take(i as int), perm, inv),
            forall|x: int, y: int| 0 <= x < y < i ==> #[trigger] orig[x].group.id != #[trigger] orig[y].group.id,
            ids_ascending(orig.take(i as int)) ==> sorted@ == orig.take(i as int),
        decreases pending.len(),
    {
        let rg = pending.remove(0);
        assert(rg == orig[i as int]);
        let id = rg.group.id;
        let mut p: usize = 0;
        while p < sorted.len() && sorted[p].group.id < id
            invariant
                p <= sorted@.len(),
                forall|q: int| 0 <= q < p ==> sorted@[q].group.id < id,
            decreases sorted.len() - p,
        {
            p = p + 1;
        }
        let ghost pre = orig.take(i as int);
        if p < sorted.len() && sorted[p].group.id == id {
            proof {
                let j = perm[p as int];
                assert(pre[j] == orig[j]);
                assert(orig[j].group.id == orig[i as int].group.id);
            }
            return None;
        }
        proof {
            assert forall|q: int| p <= q < sorted@.len() implies sorted@[q].group.id > id by {
                if q > p {
                    assert(sorted@[p as int].group.id < sorted@[q].group.id);
                }
            }
            assert forall|x: int| 0 <= x < i implies #[trigger] orig[x].group.id != id by {
                let k = inv[x];
                assert(pre[x] == orig[x]);
                assert(sorted@[k] == orig[x]);
            }
        }
        let ghost old_sorted = sorted@;
        sorted.insert(p, rg);
        proof {
            old_sorted.insert_ensures(p as int, rg);
            let np = perm.insert(p as int, i as int);
            perm.insert_ensures(p as int, i as int);
            let ni = Seq::new((i + 1) as nat, |j: int| if j == i { p as int } else if inv[j] >= p { inv[j] + 1 } else { inv[j] });
            let post = orig.take(i + 1);
            assert forall|k: int| 0 <= k < sorted@.len() implies 0 <= #[trigger] np[k] < post.len() && sorted@[k]
                == post[np[k]] && ni[np[k]] == k by {
                if k < p {
                    assert(np[k] == perm[k]);
                } else if k > p {
                    assert(np[k] == perm[k - 1]);
                    assert(sorted@[k] == old_sorted[k - 1]);
                }
            }
            assert forall|j: int| 0 <= j < post.len() implies 0 <= #[trigger] ni[j] < sorted@.len() && np[ni[j]] == j by {
                if j < i {
                    if inv[j] >= p {
                        assert(np[inv[j] + 1] == perm[inv[j]]);
                    } else {
                        assert(np[inv[j]] == perm[inv[j]]);
                    }
                }
            }
            perm = np;
            inv = ni;
            assert(rearranged(sorted@, post, perm, inv));
            assert(ids_ascending(sorted@)) by {
                assert forall|x: int, y: int| 0 <= x < y < sorted@.len() implies #[trigger] sorted@[x].group.id
                    < #[trigger] sorted@[y].group.id by {
                    if y < p {
                    } else if y == p {
                    } else if x < p {
                        assert(sorted@[y] == old_sorted[y - 1]);
                    } else if x == p {
                        assert(sorted@[y] == old_sorted[y - 1]);
                    } else {
                        assert(sorted@[x] == old_sorted[x - 1]);
                        assert(sorted@[y] == old_sorted[y - 1]);
                    }
                }
            }
            if ids_ascending(post) {
                assert(ids_ascending(pre)) by {
                    assert forall|x: int, y: int| 0 <= x < y < pre.len() implies #[trigger] pre[x].group.id
                        < #[trigger] pre[y].group.id by {
                        assert(post[x] == pre[x] && post[y] == pre[y]);
                    }
                }
                if p < old_sorted.len() {
                    assert(old_sorted[p as int] == pre[p as int]);
                    assert(post[p as int].group.id < post[i as int].group.id);
                }
                assert(sorted@ =~= post);
            }
        }
        i = i + 1;
        proof {
            assert(pending@ =~= orig.skip(i as int));
        }
    }
    proof {
        assert(orig.take(i as int) =~= orig);
    }
    Some(sorted)
}

/// Two arrangements of the same groups that both ascend by id are equal.
proof fn lemma_rearranged_ascending<B>(
    sorted: Seq<RestoredGroup<B>>,
    orig: Seq<RestoredGroup<B>>,
    perm: Seq<int>,
    inv: Seq<int>,
)
    requires
        rearranged(sorted, orig, perm, inv),
        ids_ascending(sorted),
        ids_ascending(orig),
    ensures
        sorted == orig,
{
    if sorted.len() > 0 {
        lemma_rank(sorted, orig, perm, inv, sorted.len() - 1);
    }
    assert forall|k: int| 0 <= k < sorted.len() implies sorted[k] == orig[k] by {
        assert(perm[k] == k);
    }
    assert(sorted =~= orig);
}

/// In two ascending arrangements of the same groups, the first `k + 1`
/// places hold the same groups.
proof fn lemma_rank<B>(
    sorted: Seq<RestoredGroup<B>>,
    orig: Seq<RestoredGroup<B>>,
    perm: Seq<int>,
    inv: Seq<int>,
    k: int,
)
    requires
        rearranged(sorted, orig, perm, inv),
        ids_ascending(sorted),
        ids_ascending(orig),
        0 <= k < sorted.len(),
    ensures
        forall|x: int| 0 <= x <= k ==> #[trigger] perm[x] == x,
    decreases k,
{
    if k > 0 {
        lemma_rank(sorted, orig, perm, inv, k - 1);
    }
    let j = perm[k];
    if j < k {
        assert(perm[j] == j);
        assert(inv[perm[j]] == j);
    }
    if j > k {
        let y = inv[k];
        assert(perm[y] == k);
        if y < k {
            assert(perm[y] == y);
        }
        assert(y > k);
        assert(sorted[k].group.id < sorted[y].group.id);
        assert(orig[k].group.id < orig[j].group.id);
    }
}

/// Rearranging the groups into ascending id order keeps exactly the
/// snapshots that can be restored.
proof fn lemma_rearranged_restorable<B>(
    sorted: Seq<RestoredGroup<B>>,
    orig: Seq<RestoredGroup<B>>,
    perm: Seq<int>,
    inv: Seq<int>,
)
    requires
        rearranged(sorted, orig, perm, inv),
        ids_ascending(sorted),
    ensures
        restorable(sorted) <==> restorable_any(orig),
{
    let ss = persisted_models(sorted);
    let os = persisted_models(orig);
    assert forall|k: int| 0 <= k < sorted.len() implies #[trigger] ss[k] == os[perm[k]] by {}
    assert forall|j: int| 0 <= j < orig.len() implies #[trigger] os[j] == ss[inv[j]] by {}
    if restorable(sorted) {
        assert forall|i: int, j: int| 0 <= i < os.len() && 0 <= j < os.len() && i != j implies #[trigger] os[i].id
            != #[trigger] os[j].id by {
            let (x, y) = (inv[i], inv[j]);
            assert(x != y);
            if x < y { assert(ss[x].id < ss[y].id); } else { assert(ss[y].id < ss[x].id); }
        }
        assert forall|i: int| 0 <= i < os.len() implies #[trigger] os[i].id < u64::MAX by {
            assert(ss[inv[i]].id < u64::MAX);
        }
        assert forall|i: int, a: int| 0 <= i < os.len() && 0 <= a < os[i].tabs.len() implies #[trigger] os[i].tabs[a].id
            < u64::MAX by {
            assert(ss[inv[i]].tabs[a].id < u64::MAX);
        }
        assert forall|i: int, a: int, j: int, b: int|
            0 <= i < os.len() && 0 <= j < os.len() && 0 <= a < os[i].tabs.len() && 0 <= b < os[j].tabs.len() && (i
                != j || a != b) implies #[trigger] os[i].tabs[a].id != #[trigger] os[j].tabs[b].id by {
            assert(ss[inv[i]].tabs[a].id != ss[inv[j]].tabs[b].id);
        }
        assert forall|i: int| 0 <= i < orig.len() implies (#[trigger] orig[i]).backends@.len()
            == orig[i].group.tabs@.len() by {
            assert(sorted[inv[i]] == orig[i]);
        }
    }
    if restorable_any(orig) {
        assert forall|i: int, j: int| 0 <= i < j < ss.len() implies #[trigger] ss[i].id < #[trigger] ss[j].id by {}
        assert forall|i: int| 0 <= i < ss.len() implies #[trigger] ss[i].id < u64::MAX by {
            assert(os[perm[i]].id < u64::MAX);
        }
        assert forall|i: int, a: int| 0 <= i < ss.len() && 0 <= a < ss[i].tabs.len() implies #[trigger] ss[i].tabs[a].id
            < u64::MAX by {
            assert(os[perm[i]].tabs[a].id < u64::MAX);
        }
        assert forall|i: int, a: int, j: int, b: int|
            0 <= i < ss.len() && 0 <= j < ss.len() && 0 <= a < ss[i].tabs.len() && 0 <= b < ss[j].tabs.len() && (i
                != j || a != b) implies #[trigger] ss[i].tabs[a].id != #[trigger] ss[j].tabs[b].id by {
            assert(os[perm[i]].tabs[a].id != os[perm[j]].tabs[b].id);
        }
        assert forall|i: int| 0 <= i < sorted.len() implies (#[trigger] sorted[i]).backends@.len()
            == sorted[i].group.tabs@.len() by {
            assert(orig[perm[i]] == sorted[i]);
        }
    }
}

/// A notification from a session's backend.
pub enum BackendEvent {
    /// The session's process ended.
    Exit,
    /// The session asked for a new title.
    Title(String),
    /// Anything else; the workspace ignores it.
    Other,
}

/// Why a workspace operation did not happen.
#[derive(PartialEq, Eq, Structural)]
pub enum WorkspaceError {
    /// No group has the given id.
    NoSuchGroup,
    /// A live session already has the given id.
    DuplicateTab,
    /// No id is left to allocate, or an id leaves no room after it.
    IdsExhausted,
    /// A snapshot contradicts itself (repeated or unordered ids).
    Malformed,
}

/// The registry of groups and sessions, with the active selection and the
/// id counters.
pub struct TabManager<B> {
    groups: Vec<LiveGroup<B>>,
    active_group_id: Option<u64>,
    active_tab_id: Option<u64>,
    next_group_id: u64,
    next_tab_id: u64,
    default_shell_cmd: String,
    default_agent_cmd: String,
    run_as_login_shell: bool,
}

impl<B> TabManager<B> {
    /// The live groups, in ascending id order.
    pub closed spec fn live(&self) -> Seq<LiveGroup<B>> {
        self.groups@
    }

    pub closed spec fn active_group(&self) -> Option<u64> {
        self.active_group_id
    }

    pub closed spec fn active_tab(&self) -> Option<u64> {
        self.active_tab_id
    }

    /// The next group id to hand out.
    pub closed spec fn next_group(&self) -> u64 {
        self.next_group_id
    }

    /// The next session id to hand out.
    pub closed spec fn next_tab(&self) -> u64 {
        self.next_tab_id
    }

    /// The command that plain sessions run.
    pub closed spec fn shell_cmd(&self) -> Seq<char> {
        self.default_shell_cmd@
    }

    /// The command that agent sessions run.
    pub closed spec fn agent_cmd(&self) -> Seq<char> {
        self.default_agent_cmd@
    }

    /// Whether sessions start their shell in login mode.
    pub closed spec fn login_shell(&self) -> bool {
        self.run_as_login_shell
    }

    /// The group/session topology: groups in ascending id order, each with
    /// its sessions in display order.
    pub open spec fn topology(&self) -> Seq<GroupModel> {
        self.live().map_values(|g: LiveGroup<B>| g.model())
    }

    pub open spec fn has_group(&self, g: u64) -> bool {
        exists|i: int| 0 <= i < self.live().len() && self.live()[i].id == g
    }

    /// Whether `t` is a live session, that is a key of the session map.
    pub open spec fn has_tab(&self, t: u64) -> bool {
        exists|i: int| 0 <= i < self.live().len() && self.live()[i].has_tab(t)
    }

    pub open spec fn group_has_tab(&self, g: u64, t: u64) -> bool {
        exists|i: int|
            0 <= i < self.live().len() && self.live()[i].id == g && self.live()[i].has_tab(t)
    }

    /// Group ids ascend strictly, so no two groups share one.
    pub open spec fn groups_ordered(&self) -> bool {
        forall|i: int, j: int|
            0 <= i < j < self.live().len() ==> #[trigger] self.live()[i].id < #[trigger] self.live()[j].id
    }

    /// No session id appears twice, within a group or across groups.
    pub open spec fn tabs_distinct(&self) -> bool {
        forall|i: int, a: int, j: int, b: int|
            0 <= i < self.live().len() && 0 <= j < self.live().len() && 0 <= a
                < self.live()[i].tabs@.len() && 0 <= b < self.live()[j].tabs@.len() && (i != j || a
                != b) ==> #[trigger] self.live()[i].tabs@[a].id != #[trigger] self.live()[j].tabs@[b].id
    }

    /// Every id in use lies below its counter.
    pub open spec fn ids_below_counters(&self) -> bool {
        &&& forall|i: int| 0 <= i < self.live().len() ==> #[trigger] self.live()[i].id < self.next_group()
        &&& forall|i: int, a: int|
            0 <= i < self.live().len() && 0 <= a < self.live()[i].tabs@.len()
                ==> #[trigger] self.live()[i].tabs@[a].id < self.next_tab()
    }

    /// The active group is live; the active session is live and belongs to
    /// the active group.
    pub open spec fn active_valid(&self) -> bool {
        &&& (self.active_group() matches Some(g) ==> self.has_group(g))
        &&& (self.active_tab() matches Some(t) ==> self.active_group() matches Some(g)
            && self.group_has_tab(g, t))
    }

    /// Whether the session settings are those of `other`.
    pub open spec fn same_settings(&self, other: &Self) -> bool {
        &&& self.shell_cmd() == other.shell_cmd()
        &&& self.agent_cmd() == other.agent_cmd()
        &&& self.login_shell() == other.login_shell()
    }

    pub open spec fn wf(&self) -> bool {
        &&& self.groups_ordered()
        &&& self.tabs_distinct()
        &&& self.ids_below_counters()
        &&& self.active_valid()
    }
}

/// With every backend present, restoring keeps every session.
pub proof fn lemma_kept_all(tabs: Seq<TabInfo>, present: Seq<bool>)
    requires
        forall|a: int| 0 <= a < tabs.len() ==> #[trigger] present[a],
    ensures
        kept(tabs, present) == tabs,
    decreases tabs.len(),
{
    if tabs.len() > 0 {
        lemma_kept_all(tabs.drop_last(), present);
        assert(tabs.drop_last().push(tabs.last()) =~= tabs);
    }
}

impl<B> TabManager<B> {
    /// No two live groups share an id, no two live sessions share an id, and
    /// every id in use lies below the counter that hands out the next one:
    /// since the counters only grow, a fresh id never meets a live one.
    pub proof fn lemma_ids_unique(&self)
        requires
            self.wf(),
        ensures
            forall|i: int, j: int|
                0 <= i < self.topology().len() && 0 <= j < self.topology().len() && i != j
                    ==> #[trigger] self.topology()[i].id != #[trigger] self.topology()[j].id,
            forall|i: int, a: int, j: int, b: int|
                0 <= i < self.topology().len() && 0 <= j < self.topology().len() && 0 <= a
                    < self.topology()[i].tabs.len() && 0 <= b < self.topology()[j].tabs.len() && (i != j
                    || a != b) ==> #[trigger] self.topology()[i].tabs[a].id
                    != #[trigger] self.topology()[j].tabs[b].id,
            forall|g: u64| #[trigger] self.has_group(g) ==> g < self.next_group(),
            forall|t: u64| #[trigger] self.has_tab(t) ==> t < self.next_tab(),
    {
        assert forall|i: int, j: int|
            0 <= i < self.topology().len() && 0 <= j < self.topology().len() && i != j
                implies #[trigger] self.topology()[i].id != #[trigger] self.topology()[j].id by {
            if i < j { assert(self.live()[i].id < self.live()[j].id); }
            else { assert(self.live()[j].id < self.live()[i].id); }
        }
        assert forall|i: int, a: int, j: int, b: int|
            0 <= i < self.topology().len() && 0 <= j < self.topology().len() && 0 <= a
                < self.topology()[i].tabs.len() && 0 <= b < self.topology()[j].tabs.len() && (i != j
                || a != b) implies #[trigger] self.topology()[i].tabs[a].id
                != #[trigger] self.topology()[j].tabs[b].id by {
            assert(self.topology()[i].tabs[a].id == self.live()[i].tabs@[a].id);
            assert(self.topology()[j].tabs[b].id == self.live()[j].tabs@[b].id);
        }
        assert forall|t: u64| #[trigger] self.has_tab(t) implies t < self.next_tab() by {
            let i = choose|i: int| 0 <= i < self.live().len() && self.live()[i].has_tab(t);
            let a = choose|a: int| 0 <= a < self.live()[i].tabs@.len() && self.live()[i].tabs@[a].id == t;
        }
    }

    /// When a session is active it is live and belongs to the active group,
    /// which is live too.
    pub proof fn lemma_active_valid(&self)
        requires
            self.wf(),
        ensures
            self.active_tab() matches Some(t) ==> self.has_tab(t) && (self.active_group() matches Some(g)
                && self.group_has_tab(g, t) && self.has_group(g)),
            self.active_group() matches Some(g) ==> self.has_group(g),
    {
        if let Some(t) = self.active_tab() {
            let g = self.active_group().unwrap();
            let i = choose|i: int| 0 <= i < self.live().len() && self.live()[i].id == g && self.live()[i].has_tab(t);
            assert(self.has_tab(t));
        }
    }

    /// Restoring a well-formed workspace's snapshot, with a backend for every
    /// session, is accepted and gives back the same groups, in the same
    /// order, with the same ids, names, paths and sessions.
    pub proof fn lemma_snapshot_round_trip(&self, input: Seq<RestoredGroup<B>>)
        requires
            self.wf(),
            persisted_models(input) == self.topology(),
            forall|i: int| 0 <= i < input.len() ==> (#[trigger] input[i]).backends@.len() == input[i].group.tabs@.len(),
            forall|i: int, a: int|
                0 <= i < input.len() && 0 <= a < input[i].backends@.len() ==> (#[trigger] input[i].backends@[a]) is Some,
        ensures
            restorable(input),
            restorable_any(input),
            ids_ascending(input),
            input.map_values(|g: RestoredGroup<B>| g.restored_model()) == self.topology(),
    {
        let snap = self.topology();
        self.lemma_ids_unique();
        assert(snapshot_consistent(snap)) by {
            assert forall|i: int, j: int| 0 <= i < j < snap.len() implies #[trigger] snap[i].id < #[trigger] snap[j].id by {
                assert(self.live()[i].id < self.live()[j].id);
            }
            assert forall|i: int| 0 <= i < snap.len() implies #[trigger] snap[i].id < u64::MAX by {
                assert(self.live()[i].id < self.next_group());
            }
            assert forall|i: int, a: int| 0 <= i < snap.len() && 0 <= a < snap[i].tabs.len() implies #[trigger] snap[i].tabs[a].id < u64::MAX by {
                assert(snap[i].tabs[a].id == self.live()[i].tabs@[a].id);
                assert(self.live()[i].tabs@[a].id < self.next_tab());
            }
        }
        assert forall|i: int| 0 <= i < input.len() implies #[trigger] input[i].restored_model() == snap[i] by {
            assert(persisted_models(input)[i] == input[i].group.model());
            assert forall|a: int| 0 <= a < input[i].group.tabs@.len() implies #[trigger] input[i].present()[a] by {
                assert(input[i].backends@[a] is Some);
            }
            lemma_kept_all(input[i].group.tabs@, input[i].present());
        }
        assert(input.map_values(|g: RestoredGroup<B>| g.restored_model()) =~= snap);
        assert(ids_ascending(input)) by {
            assert forall|i: int, j: int| 0 <= i < j < input.len() implies #[trigger] input[i].group.id
                < #[trigger] input[j].group.id by {
                assert(persisted_models(input)[i].id == input[i].group.id);
                assert(persisted_models(input)[j].id == input[j].group.id);
            }
        }
        let ident = Seq::new(input.len(), |k: int| k);
        assert(rearranged(input, input, ident, ident));
        lemma_rearranged_restorable(input, input, ident, ident);
    }
}

impl<B: TerminalBackendExt> TabManager<B> {
    /// An empty workspace with the given session settings.
    pub fn new(default_shell_cmd: String, default_agent_cmd: String, run_as_login_shell: bool) -> (r: TabManager<B>)
        ensures
            r.wf(),
            r.topology() == Seq::<GroupModel>::empty(),
            r.active_group().is_none(),
            r.active_tab().is_none(),
            r.next_group() == 0,
            r.next_tab() == 0,
            r.shell_cmd() == default_shell_cmd@,
            r.agent_cmd() == default_agent_cmd@,
            r.login_shell() == run_as_login_shell,
    {
        let r = TabManager {
            groups: Vec::new(),
            active_group_id: None,
            active_tab_id: None,
            next_group_id: 0,
            next_tab_id: 0,
            default_shell_cmd,
            default_agent_cmd,
            run_as_login_shell,
        };
        assert(r.topology() =~= Seq::<GroupModel>::empty());
        r
    }

    /// The live groups, in ascending id order.
    pub fn groups(&self) -> (r: &Vec<LiveGroup<B>>)
        ensures
            r@ == self.live(),
    {
        &self.groups
    }

    /// The id of the active group, if any.
    pub fn active_group_id(&self) -> (r: Option<u64>)
        ensures
            r == self.active_group(),
    {
        self.active_group_id
    }

    /// The id of the active session, if any.
    pub fn active_tab_id(&self) -> (r: Option<u64>)
        ensures
            r == self.active_tab(),
    {
        self.active_tab_id
    }

    /// Opens a new empty group rooted at `path`, named after the path, and
    /// makes it the active group, with no active session.
    pub fn create_group(&mut self, path: String) -> (r: Result<u64, WorkspaceError>)
        requires
            old(self).wf(),
        ensures
            final(self).wf(),
            r is Err <==> old(self).next_group() == u64::MAX,
            r matches Err(e) ==> e == WorkspaceError::IdsExhausted && *final(self) == *old(self),
            r matches Ok(g) ==> {
                &&& g == old(self).next_group()
                &&& final(self).next_group() == g + 1
                &&& final(self).topology() == old(self).topology().push(
                    GroupModel { id: g, name: name_for(path@), path: path@, tabs: Seq::empty() },
                )
                &&& final(self).active_group() == Some(g)
                &&& final(self).active_tab().is_none()
                &&& final(self).next_tab() == old(self).next_tab()
                &&& final(self).same_settings(old(self))
            },
    {
        if self.next_group_id == u64::MAX {
            return Err(WorkspaceError::IdsExhausted);
        }
        let g = self.next_group_id;
        self.next_group_id = g + 1;
        let name = TabGroup::name_from_path(&path);
        let group = LiveGroup { id: g, name, path, tabs: Vec::new() };
        let ghost old_live = self.groups@;
        self.groups.push(group);
        self.active_group_id = Some(g);
        self.active_tab_id = None;
        proof {
            assert(self.groups@[old_live.len() as int].id == g);
            assert(self.groups@[old_live.len() as int].infos() =~= Seq::<TabInfo>::empty());
            assert(self.topology() =~= old(self).topology().push(
                GroupModel { id: g, name: name_for(path@), path: path@, tabs: Seq::empty() },
            ));
        }
        Ok(g)
    }

    /// Renames the group with id `group_id`, if there is one.
    pub fn rename_group(&mut self, group_id: u64, new_name: String)
        requires
            old(self).wf(),
        ensures
            final(self).wf(),
            !old(self).has_group(group_id) ==> *final(self) == *old(self),
            old(self).has_group(group_id) ==> final(self).topology() == old(self).topology().map_values(
                |m: GroupModel|
                    if m.id == group_id {
                        GroupModel { name: new_name@, ..m }
                    } else {
                        m
                    },
            ),
            final(self).active_group() == old(self).active_group(),
            final(self).active_tab() == old(self).active_tab(),
            final(self).next_group() == old(self).next_group(),
            final(self).next_tab() == old(self).next_tab(),
            final(self).same_settings(old(self)),
    {
        if let Some(i) = self.find_group(group_id) {
            let ghost old_live = self.groups@;
            self.groups[i].name = new_name;
            proof {
                assert forall|k: int| 0 <= k < old_live.len() && k != i implies old_live[k].id != group_id by {
                    if k < i { assert(old_live[k].id < old_live[i as int].id); }
                    else { assert(old_live[i as int].id < old_live[k].id); }
                }
                assert(self.topology() =~= old(self).topology().map_values(
                    |m: GroupModel|
                        if m.id == group_id {
                            GroupModel { name: new_name@, ..m }
                        } else {
                            m
                        },
                ));
                Self::lemma_same_shape(old(self), self);
            }
        }
    }

    /// Two workspaces with the same ids in the same places, the same active
    /// selection and the same counters are well formed together, and have
    /// the same groups and sessions.
    proof fn lemma_same_shape(a: &Self, b: &Self)
        requires
            a.wf(),
            a.live().len() == b.live().len(),
            forall|k: int| 0 <= k < a.live().len() ==> (#[trigger] a.live()[k]).id == b.live()[k].id
                && a.live()[k].tabs@.len() == b.live()[k].tabs@.len(),
            forall|k: int, x: int|
                0 <= k < a.live().len() && 0 <= x < a.live()[k].tabs@.len()
                    ==> (#[trigger] a.live()[k].tabs@[x]).id == b.live()[k].tabs@[x].id,
            a.active_group() == b.active_group(),
            a.active_tab() == b.active_tab(),
            a.next_group() == b.next_group(),
            a.next_tab() == b.next_tab(),
        ensures
            b.wf(),
            forall|g: u64| a.has_group(g) == b.has_group(g),
            forall|t: u64| a.has_tab(t) == b.has_tab(t),
            forall|g: u64, t: u64| a.group_has_tab(g, t) == b.group_has_tab(g, t),
    {
        assert forall|k: int, t: u64| 0 <= k < a.live().len() implies (#[trigger] a.live()[k].has_tab(t))
            == b.live()[k].has_tab(t) by {
            if a.live()[k].has_tab(t) {
                let x = choose|x: int| 0 <= x < a.live()[k].tabs@.len() && a.live()[k].tabs@[x].id == t;
                assert(b.live()[k].tabs@[x].id == t);
            }
            if b.live()[k].has_tab(t) {
                let x = choose|x: int| 0 <= x < b.live()[k].tabs@.len() && b.live()[k].tabs@[x].id == t;
                assert(a.live()[k].tabs@[x].id == t);
            }
        }
        assert forall|g: u64| a.has_group(g) == b.has_group(g) by {
            if a.has_group(g) {
                let i = choose|i: int| 0 <= i < a.live().len() && a.live()[i].id == g;
                assert(b.live()[i].id == g);
            }
            if b.has_group(g) {
                let i = choose|i: int| 0 <= i < b.live().len() && b.live()[i].id == g;
                assert(a.live()[i].id == g);
            }
        }
        assert forall|t: u64| a.has_tab(t) == b.has_tab(t) by {
            if a.has_tab(t) {
                let i = choose|i: int| 0 <= i < a.live().len() && a.live()[i].has_tab(t);
                assert(b.live()[i].has_tab(t));
            }
            if b.has_tab(t) {
                let i = choose|i: int| 0 <= i < b.live().len() && b.live()[i].has_tab(t);
                assert(a.live()[i].has_tab(t));
            }
        }
        assert forall|g: u64, t: u64| a.group_has_tab(g, t) == b.group_has_tab(g, t) by {
            if a.group_has_tab(g, t) {
                let i = choose|i: int| 0 <= i < a.live().len() && a.live()[i].id == g && a.live()[i].has_tab(t);
                assert(b.live()[i].id == g && b.live()[i].has_tab(t));
            }
            if b.group_has_tab(g, t) {
                let i = choose|i: int| 0 <= i < b.live().len() && b.live()[i].id == g && b.live()[i].has_tab(t);
                assert(a.live()[i].id == g && a.live()[i].has_tab(t));
            }
        }
        assert(b.groups_ordered()) by {
            assert forall|i: int, j: int| 0 <= i < j < b.live().len() implies #[trigger] b.live()[i].id < #[trigger] b.live()[j].id by {
                assert(a.live()[i].id < a.live()[j].id);
            }
        }
        assert(b.tabs_distinct()) by {
            assert forall|i: int, x: int, j: int, y: int|
                0 <= i < b.live().len() && 0 <= j < b.live().len() && 0 <= x < b.live()[i].tabs@.len()
                    && 0 <= y < b.live()[j].tabs@.len() && (i != j || x != y) implies #[trigger] b.live()[i].tabs@[x].id
                    != #[trigger] b.live()[j].tabs@[y].id by {
                assert(a.live()[i].tabs@[x].id != a.live()[j].tabs@[y].id);
            }
        }
        assert(b.ids_below_counters()) by {
            assert forall|i: int| 0 <= i < b.live().len() implies #[trigger] b.live()[i].id < b.next_group() by {
                assert(a.live()[i].id < a.next_group());
            }
            assert forall|i: int, x: int| 0 <= i < b.live().len() && 0 <= x < b.live()[i].tabs@.len()
                implies #[trigger] b.live()[i].tabs@[x].id < b.next_tab() by {
                assert(a.live()[i].tabs@[x].id < a.next_tab());
            }
        }
    }

    /// The topology with `info` appended to the sessions of group `g`.
    pub open spec fn with_tab_appended(topo: Seq<GroupModel>, g: u64, info: TabInfo) -> Seq<GroupModel> {
        topo.map_values(
            |m: GroupModel|
                if m.id == g {
                    GroupModel { tabs: m.tabs.push(info), ..m }
                } else {
                    m
                },
        )
    }

    /// The command a new session runs: the agent command for an agent
    /// session, else the shell command.
    pub fn session_command(&self, use_agent: bool) -> (r: String)
        ensures
            r@ == if use_agent {
                self.agent_cmd()
            } else {
                self.shell_cmd()
            },
    {
        if use_agent {
            self.default_agent_cmd.clone()
        } else {
            self.default_shell_cmd.clone()
        }
    }

    /// Allocates the id of a new session in group `group_id` and tells how to
    /// spawn its backend: with `shell`, the login flag when sessions use it,
    /// in the group's directory. The id stays consumed whatever comes of the
    /// spawn.
    pub fn begin_tab(&mut self, group_id: u64, use_agent: bool, shell: String) -> (r: Result<SpawnRequest, WorkspaceError>)
        requires
            old(self).wf(),
        ensures
            final(self).wf(),
            r matches Err(e) ==> *final(self) == *old(self) && if old(self).has_group(group_id) {
                e == WorkspaceError::IdsExhausted
            } else {
                e == WorkspaceError::NoSuchGroup
            },
            r is Err <==> !old(self).has_group(group_id) || old(self).next_tab() == u64::MAX,
            r matches Ok(q) ==> {
                &&& q.tab_id == old(self).next_tab()
                &&& q.group_id == group_id
                &&& q.is_agent == use_agent
                &&& q.shell == shell
                &&& (if old(self).login_shell() { strings_view(q.args@) == seq![LOGIN_ARG@] } else { q.args@.len() == 0 })
                &&& exists|i: int| 0 <= i < old(self).live().len() && old(self).live()[i].id == group_id
                    && q.working_directory@ == old(self).live()[i].path@
                &&& final(self).next_tab() == old(self).next_tab() + 1
                &&& final(self).topology() == old(self).topology()
                &&& final(self).live() == old(self).live()
                &&& final(self).active_group() == old(self).active_group()
                &&& final(self).active_tab() == old(self).active_tab()
                &&& final(self).next_group() == old(self).next_group()
                &&& final(self).same_settings(old(self))
            },
    {
        let i = match self.find_group(group_id) {
            Some(i) => i,
            None => return Err(WorkspaceError::NoSuchGroup),
        };
        if self.next_tab_id == u64::MAX {
            return Err(WorkspaceError::IdsExhausted);
        }
        let tab_id = self.next_tab_id;
        self.next_tab_id = tab_id + 1;
        let working_directory = self.groups[i].path.clone();
        let args = shell_args(self.run_as_login_shell);
        proof {
            assert forall|k: int, x: int| 0 <= k < self.live().len() && 0 <= x < self.live()[k].tabs@.len()
                implies #[trigger] self.live()[k].tabs@[x].id < self.next_tab() by {
                assert(old(self).live()[k].tabs@[x].id < old(self).next_tab());
            }
        }
        Ok(SpawnRequest { tab_id, group_id, is_agent: use_agent, shell, args, working_directory })
    }

    /// Adds a session around a spawned backend to the end of group
    /// `group_id` and makes it, and its group, active. Refused for a group
    /// that is not live, an id that a live session has, and the largest id,
    /// after which the counter could not move.
    pub fn attach_tab(&mut self, group_id: u64, tab_id: u64, is_agent: bool, backend: B) -> (r: Result<(), WorkspaceError>)
        requires
            old(self).wf(),
        ensures
            final(self).wf(),
            r matches Err(e) ==> *final(self) == *old(self) && if !old(self).has_group(group_id) {
                e == WorkspaceError::NoSuchGroup
            } else if old(self).has_tab(tab_id) {
                e == WorkspaceError::DuplicateTab
            } else {
                e == WorkspaceError::IdsExhausted
            },
            r is Err <==> !old(self).has_group(group_id) || old(self).has_tab(tab_id) || tab_id == u64::MAX,
            r is Ok ==> {
                &&& final(self).topology() == Self::with_tab_appended(
                    old(self).topology(),
                    group_id,
                    TabInfo { id: tab_id, is_agent },
                )
                &&& final(self).active_group() == Some(group_id)
                &&& final(self).active_tab() == Some(tab_id)
                &&& final(self).next_tab() == if tab_id < old(self).next_tab() {
                    old(self).next_tab()
                } else {
                    (tab_id + 1) as u64
                }
                &&& final(self).next_group() == old(self).next_group()
                &&& final(self).same_settings(old(self))
            },
    {
        let i = match self.find_group(group_id) {
            Some(i) => i,
            None => return Err(WorkspaceError::NoSuchGroup),
        };
        if self.find_tab(tab_id).is_some() {
            return Err(WorkspaceError::DuplicateTab);
        }
        if tab_id == u64::MAX {
            return Err(WorkspaceError::IdsExhausted);
        }
        let ghost old_live = self.groups@;
        let tab = Tab::new(tab_id, backend, is_agent);
        self.groups[i].tabs.push(tab);
        if tab_id >= self.next_tab_id {
            self.next_tab_id = tab_id + 1;
        }
        self.active_group_id = Some(group_id);
        self.active_tab_id = Some(tab_id);
        proof {
            let info = TabInfo { id: tab_id, is_agent };
            let n = old_live[i as int].tabs@.len();
            assert(self.groups@[i as int].tabs@ == old_live[i as int].tabs@.push(tab));
            assert forall|k: int| 0 <= k < old_live.len() && k != i implies old_live[k].id != group_id by {
                if k < i { assert(old_live[k].id < old_live[i as int].id); }
                else { assert(old_live[i as int].id < old_live[k].id); }
            }
            assert(self.groups@[i as int].infos() =~= old_live[i as int].infos().push(info));
            assert(self.topology() =~= Self::with_tab_appended(old(self).topology(), group_id, info));
            assert forall|k: int, x: int| 0 <= k < old_live.len() && 0 <= x < old_live[k].tabs@.len()
                implies old_live[k].tabs@[x].id != tab_id by {
                if old_live[k].tabs@[x].id == tab_id {
                    assert(old_live[k].has_tab(tab_id));
                }
            }
            assert(self.groups_ordered());
            assert(self.tabs_distinct()) by {
                assert forall|k: int, x: int, j: int, y: int|
                    0 <= k < self.live().len() && 0 <= j < self.live().len() && 0 <= x < self.live()[k].tabs@.len()
                        && 0 <= y < self.live()[j].tabs@.len() && (k != j || x != y) implies #[trigger] self.live()[k].tabs@[x].id
                        != #[trigger] self.live()[j].tabs@[y].id by {
                    if !(k == i && x == n) && !(j == i && y == n) {
                        assert(old_live[k].tabs@[x].id != old_live[j].tabs@[y].id);
                    }
                }
            }
            assert(self.ids_below_counters()) by {
                assert forall|k: int, x: int| 0 <= k < self.live().len() && 0 <= x < self.live()[k].tabs@.len()
                    implies #[trigger] self.live()[k].tabs@[x].id < self.next_tab() by {
                    if !(k == i && x == n) {
                        assert(old_live[k].tabs@[x].id < old(self).next_tab());
                    }
                }
            }
            assert(self.live()[i as int].tabs@[n as int].id == tab_id);
            assert(self.group_has_tab(group_id, tab_id));
            assert(self.has_group(group_id));
        }
        Ok(())
    }

    /// The active group and session chosen when the active group goes: the
    /// lowest remaining group and its first session.
    pub open spec fn fallback_active(topo: Seq<GroupModel>) -> (Option<u64>, Option<u64>) {
        if topo.len() > 0 {
            (
                Some(topo[0].id),
                if topo[0].tabs.len() > 0 {
                    Some(topo[0].tabs[0].id)
                } else {
                    None
                },
            )
        } else {
            (None, None)
        }
    }

    /// Removing the group at position `i` keeps the rest well formed and
    /// takes exactly that group and its sessions away.
    proof fn lemma_group_removed(a: &Self, b: &Self, i: int)
        requires
            a.wf(),
            0 <= i < a.live().len(),
            b.live() == a.live().remove(i),
            b.next_group() == a.next_group(),
            b.next_tab() == a.next_tab(),
        ensures
            b.groups_ordered(),
            b.tabs_distinct(),
            b.ids_below_counters(),
            forall|g: u64| b.has_group(g) <==> (a.has_group(g) && g != a.live()[i].id),
            forall|g: u64, t: u64|
                g != a.live()[i].id ==> (b.group_has_tab(g, t) <==> a.group_has_tab(g, t)),
            forall|t: u64| b.has_tab(t) <==> (a.has_tab(t) && !a.live()[i].has_tab(t)),
            b.topology() == a.topology().remove(i),
    {
        let gi = a.live()[i].id;
        assert forall|k: int| 0 <= k < a.live().len() && k != i implies a.live()[k].id != gi by {
            if k < i { assert(a.live()[k].id < a.live()[i].id); }
            else { assert(a.live()[i].id < a.live()[k].id); }
        }
        assert(b.groups_ordered()) by {
            assert forall|x: int, y: int| 0 <= x < y < b.live().len() implies #[trigger] b.live()[x].id < #[trigger] b.live()[y].id by {
                let ox = if x < i { x } else { x + 1 };
                let oy = if y < i { y } else { y + 1 };
                assert(a.live()[ox].id < a.live()[oy].id);
            }
        }
        assert(b.tabs_distinct()) by {
            assert forall|x: int, p: int, y: int, q: int|
                0 <= x < b.live().len() && 0 <= y < b.live().len() && 0 <= p < b.live()[x].tabs@.len()
                    && 0 <= q < b.live()[y].tabs@.len() && (x != y || p != q) implies #[trigger] b.live()[x].tabs@[p].id
                    != #[trigger] b.live()[y].tabs@[q].id by {
                let ox = if x < i { x } else { x + 1 };
                let oy = if y < i { y } else { y + 1 };
                assert(a.live()[ox].tabs@[p].id != a.live()[oy].tabs@[q].id);
            }
        }
        assert(b.ids_below_counters()) by {
            assert forall|x: int| 0 <= x < b.live().len() implies #[trigger] b.live()[x].id < b.next_group() by {
                let ox = if x < i { x } else { x + 1 };
                assert(a.live()[ox].id < a.next_group());
            }
            assert forall|x: int, p: int| 0 <= x < b.live().len() && 0 <= p < b.live()[x].tabs@.len()
                implies #[trigger] b.live()[x].tabs@[p].id < b.next_tab() by {
                let ox = if x < i { x } else { x + 1 };
                assert(a.live()[ox].tabs@[p].id < a.next_tab());
            }
        }
        assert forall|g: u64| b.has_group(g) <==> (a.has_group(g) && g != gi) by {
            if b.has_group(g) {
                let x = choose|x: int| 0 <= x < b.live().len() && b.live()[x].id == g;
                let ox = if x < i { x } else { x + 1 };
                assert(a.live()[ox].id == g);
            }
            if a.has_group(g) && g != gi {
                let k = choose|k: int| 0 <= k < a.live().len() && a.live()[k].id == g;
                let x = if k < i { k } else { k - 1 };
                assert(b.live()[x].id == g);
            }
        }
        assert forall|g: u64, t: u64| g != gi implies (b.group_has_tab(g, t) <==> a.group_has_tab(g, t)) by {
            if b.group_has_tab(g, t) {
                let x = choose|x: int| 0 <= x < b.live().len() && b.live()[x].id == g && b.live()[x].has_tab(t);
                let ox = if x < i { x } else { x + 1 };
                assert(a.live()[ox] == b.live()[x]);
            }
            if a.group_has_tab(g, t) {
                let k = choose|k: int| 0 <= k < a.live().len() && a.live()[k].id == g && a.live()[k].has_tab(t);
                let x = if k < i { k } else { k - 1 };
                assert(b.live()[x] == a.live()[k]);
            }
        }
        assert forall|t: u64| b.has_tab(t) <==> (a.has_tab(t) && !a.live()[i].has_tab(t)) by {
            if b.has_tab(t) {
                let x = choose|x: int| 0 <= x < b.live().len() && b.live()[x].has_tab(t);
                let ox = if x < i { x } else { x + 1 };
                assert(a.live()[ox] == b.live()[x]);
                assert(a.has_tab(t));
                let p = choose|p: int| 0 <= p < a.live()[ox].tabs@.len() && a.live()[ox].tabs@[p].id == t;
                if a.live()[i].has_tab(t) {
                    let q = choose|q: int| 0 <= q < a.live()[i].tabs@.len() && a.live()[i].tabs@[q].id == t;
                    assert(a.live()[ox].tabs@[p].id != a.live()[i].tabs@[q].id);
                }
            }
            if a.has_tab(t) && !a.live()[i].has_tab(t) {
                let k = choose|k: int| 0 <= k < a.live().len() && a.live()[k].has_tab(t);
                let x = if k < i { k } else { k - 1 };
                assert(b.live()[x] == a.live()[k]);
            }
        }
        assert(b.topology() =~= a.topology().remove(i));
    }

    /// Removes the group with id `group_id` and every session in it,
    /// releasing their backends. When it was the active group, the lowest
    /// remaining group and its first session become active, or nothing.
    pub fn remove_group(&mut self, group_id: u64)
        requires
            old(self).wf(),
        ensures
            final(self).wf(),
            !old(self).has_group(group_id) ==> *final(self) == *old(self),
            old(self).has_group(group_id) ==> exists|i: int|
                0 <= i < old(self).live().len() && old(self).live()[i].id == group_id
                    && final(self).topology() == old(self).topology().remove(i),
            old(self).active_group() == Some(group_id) ==> (final(self).active_group(), final(self).active_tab())
                == Self::fallback_active(final(self).topology()),
            old(self).active_group() != Some(group_id) ==> final(self).active_group() == old(self).active_group()
                && final(self).active_tab() == old(self).active_tab(),
            forall|t: u64|
                #[trigger] final(self).has_tab(t) <==> old(self).has_tab(t) && !old(self).group_has_tab(group_id, t),
            final(self).next_group() == old(self).next_group(),
            final(self).next_tab() == old(self).next_tab(),
            final(self).same_settings(old(self)),
    {
        let i = match self.find_group(group_id) {
            Some(i) => i,
            None => return,
        };
        let ghost old_self = *self;
        let _removed = self.groups.remove(i);
        proof {
            Self::lemma_group_removed(&old_self, self, i as int);
            assert forall|t: u64| old_self.group_has_tab(group_id, t) <==> old_self.live()[i as int].has_tab(t) by {
                if old_self.group_has_tab(group_id, t) {
                    let k = choose|k: int| 0 <= k < old_self.live().len() && old_self.live()[k].id == group_id
                        && old_self.live()[k].has_tab(t);
                    if k != i {
                        if k < i { assert(old_self.live()[k].id < old_self.live()[i as int].id); }
                        else { assert(old_self.live()[i as int].id < old_self.live()[k].id); }
                    }
                }
            }
        }
        if self.active_group_id == Some(group_id) {
            if self.groups.len() > 0 {
                self.active_group_id = Some(self.groups[0].id);
                self.active_tab_id = if self.groups[0].tabs.len() > 0 {
                    Some(self.groups[0].tabs[0].id)
                } else {
                    None
                };
                proof {
                    assert(self.live()[0] == self.groups@[0]);
                    assert(self.has_group(self.groups@[0].id));
                    if self.groups@[0].tabs@.len() > 0 {
                        assert(self.groups@[0].has_tab(self.groups@[0].tabs@[0].id));
                        assert(self.group_has_tab(self.groups@[0].id, self.groups@[0].tabs@[0].id));
                    }
                    assert(self.topology()[0].tabs == self.groups@[0].infos());
                }
            } else {
                self.active_group_id = None;
                self.active_tab_id = None;
            }
        }
    }

    /// What removing session `id` from `old` leaves: when `id` is not live,
    /// `old` itself. When it was the last session of its group, the group
    /// goes too, as by `remove_group`. Otherwise its group keeps the other
    /// sessions in order, and if it was the active session the last of them
    /// becomes active. Every other session stays live; counters and settings
    /// stay.
    pub open spec fn removed_from(&self, old: &Self, id: u64) -> bool {
        &&& (!old.has_tab(id) ==> *self == *old)
        &&& (old.has_tab(id) ==> exists|i: int, a: int|
            {
                &&& 0 <= i < old.live().len()
                &&& 0 <= a < old.live()[i].tabs@.len()
                &&& old.live()[i].tabs@[a].id == id
                &&& if old.live()[i].tabs@.len() == 1 {
                    &&& self.topology() == old.topology().remove(i)
                    &&& old.active_group() == Some(old.live()[i].id) ==> (self.active_group(), self.active_tab())
                        == Self::fallback_active(self.topology())
                    &&& old.active_group() != Some(old.live()[i].id) ==> self.active_group() == old.active_group()
                        && self.active_tab() == old.active_tab()
                } else {
                    &&& self.topology() == old.topology().update(
                        i,
                        GroupModel { tabs: old.topology()[i].tabs.remove(a), ..old.topology()[i] },
                    )
                    &&& self.active_group() == old.active_group()
                    &&& self.active_tab() == if old.active_tab() == Some(id) {
                        Some(self.topology()[i].tabs.last().id)
                    } else {
                        old.active_tab()
                    }
                }
            })
        &&& forall|t: u64| #[trigger] self.has_tab(t) <==> old.has_tab(t) && t != id
        &&& self.next_group() == old.next_group()
        &&& self.next_tab() == old.next_tab()
        &&& self.same_settings(old)
    }

    /// Removes the session with id `id`, releasing its backend. When it was
    /// the last session of its group, the group goes too, as by
    /// `remove_group`. Otherwise its group keeps the other sessions, in order;
    /// if it was the active session, the last of them becomes active.
    #[verifier::rlimit(60)]
    pub fn remove(&mut self, id: u64)
        requires
            old(self).wf(),
        ensures
            final(self).wf(),
            final(self).removed_from(old(self), id),
    {
        let (i, a) = match self.find_tab(id) {
            Some(p) => p,
            None => return,
        };
        if self.groups[i].tabs.len() == 1 {
            let group_id = self.groups[i].id;
            proof {
                assert(self.live()[i as int].id == group_id);
            }
            self.remove_group(group_id);
            proof {
                let j = choose|j: int| 0 <= j < old(self).live().len() && old(self).live()[j].id == group_id
                    && self.topology() == old(self).topology().remove(j);
                if j != i {
                    if j < i { assert(old(self).live()[j].id < old(self).live()[i as int].id); }
                    else { assert(old(self).live()[i as int].id < old(self).live()[j].id); }
                }
                assert forall|t: u64| old(self).group_has_tab(group_id, t) <==> t == id by {
                    if old(self).group_has_tab(group_id, t) {
                        let k = choose|k: int| 0 <= k < old(self).live().len() && old(self).live()[k].id == group_id
                            && old(self).live()[k].has_tab(t);
                        if k != i {
                            if k < i { assert(old(self).live()[k].id < old(self).live()[i as int].id); }
                            else { assert(old(self).live()[i as int].id < old(self).live()[k].id); }
                        }
                        let x = choose|x: int| 0 <= x < old(self).live()[k].tabs@.len() && old(self).live()[k].tabs@[x].id == t;
                        assert(x == 0 && a == 0);
                    }
                    if t == id {
                        assert(old(self).live()[i as int].has_tab(t));
                    }
                }
            }
            return;
        }
        let ghost old_live = self.groups@;
        let ghost old_tabs = self.groups@[i as int].tabs@;
        let _removed = self.groups[i].tabs.remove(a);
        if self.active_tab_id == Some(id) {
            let n = self.groups[i].tabs.len();
            self.active_tab_id = Some(self.groups[i].tabs[n - 1].id);
        }
        proof {
            let gi = old_live[i as int].id;
            let new_tabs = self.groups@[i as int].tabs@;
            assert(new_tabs == old_tabs.remove(a as int));
            assert(self.groups@[i as int].infos() =~= old_live[i as int].infos().remove(a as int));
            assert(self.topology() =~= old(self).topology().update(
                i as int,
                GroupModel { tabs: old(self).topology()[i as int].tabs.remove(a as int), ..old(self).topology()[i as int] },
            ));
            assert forall|k: int| 0 <= k < old_live.len() && k != i implies old_live[k].id != gi by {
                if k < i { assert(old_live[k].id < old_live[i as int].id); }
                else { assert(old_live[i as int].id < old_live[k].id); }
            }
            assert(self.groups_ordered()) by {
                assert forall|x: int, y: int| 0 <= x < y < self.live().len() implies #[trigger] self.live()[x].id < #[trigger] self.live()[y].id by {
                    assert(old_live[x].id < old_live[y].id);
                }
            }
            assert(self.tabs_distinct()) by {
                assert forall|x: int, p: int, y: int, q: int|
                    0 <= x < self.live().len() && 0 <= y < self.live().len() && 0 <= p < self.live()[x].tabs@.len()
                        && 0 <= q < self.live()[y].tabs@.len() && (x != y || p != q) implies #[trigger] self.live()[x].tabs@[p].id
                        != #[trigger] self.live()[y].tabs@[q].id by {
                    let op = if x == i && p >= a { p + 1 } else { p };
                    let oq = if y == i && q >= a { q + 1 } else { q };
                    assert(old_live[x].tabs@[op].id != old_live[y].tabs@[oq].id);
                }
            }
            assert(self.ids_below_counters()) by {
                assert forall|x: int| 0 <= x < self.live().len() implies #[trigger] self.live()[x].id < self.next_group() by {
                    assert(old_live[x].id < old(self).next_group());
                }
                assert forall|x: int, p: int| 0 <= x < self.live().len() && 0 <= p < self.live()[x].tabs@.len()
                    implies #[trigger] self.live()[x].tabs@[p].id < self.next_tab() by {
                    let op = if x == i && p >= a { p + 1 } else { p };
                    assert(old_live[x].tabs@[op].id < old(self).next_tab());
                }
            }
            assert forall|t: u64| #[trigger] self.has_tab(t) <==> old(self).has_tab(t) && t != id by {
                if self.has_tab(t) {
                    let k = choose|k: int| 0 <= k < self.live().len() && self.live()[k].has_tab(t);
                    let x = choose|x: int| 0 <= x < self.live()[k].tabs@.len() && self.live()[k].tabs@[x].id == t;
                    let ox = if k == i && x >= a { x + 1 } else { x };
                    assert(old_live[k].tabs@[ox].id == t);
                    assert(old_live[k].has_tab(t));
                    if t == id {
                        assert(old_live[k].tabs@[ox].id != old_live[i as int].tabs@[a as int].id);
                    }
                }
                if old(self).has_tab(t) && t != id {
                    let k = choose|k: int| 0 <= k < old_live.len() && old_live[k].has_tab(t);
                    let x = choose|x: int| 0 <= x < old_live[k].tabs@.len() && old_live[k].tabs@[x].id == t;
                    if k == i {
                        assert(x != a);
                        let nx = if x < a { x } else { x - 1 };
                        assert(self.live()[k].tabs@[nx].id == t);
                    } else {
                        assert(self.live()[k].tabs@[x].id == t);
                    }
                    assert(self.live()[k].has_tab(t));
                }
            }
            // the active group is still there
            if let Some(g) = self.active_group_id {
                let k = choose|k: int| 0 <= k < old_live.len() && old_live[k].id == g;
                assert(self.live()[k].id == g);
            }
            if let Some(t) = self.active_tab_id {
                let g = self.active_group_id.unwrap();
                if old(self).active_tab() == Some(id) {
                    let k = choose|k: int| 0 <= k < old_live.len() && old_live[k].id == g && old_live[k].has_tab(id);
                    let p = choose|p: int| 0 <= p < old_live[k].tabs@.len() && old_live[k].tabs@[p].id == id;
                    if k != i {
                        assert(old_live[k].tabs@[p].id != old_live[i as int].tabs@[a as int].id);
                    }
                    let n = new_tabs.len();
                    assert(self.live()[i as int].tabs@[n - 1].id == t);
                    assert(self.live()[i as int].has_tab(t));
                    assert(self.topology()[i as int].tabs.last().id == t);
                } else {
                    let k = choose|k: int| 0 <= k < old_live.len() && old_live[k].id == g && old_live[k].has_tab(t);
                    let p = choose|p: int| 0 <= p < old_live[k].tabs@.len() && old_live[k].tabs@[p].id == t;
                    if k == i {
                        assert(p != a);
                        let np = if p < a { p } else { p - 1 };
                        assert(self.live()[k].tabs@[np].id == t);
                    } else {
                        assert(self.live()[k].tabs@[p].id == t);
                    }
                    assert(self.live()[k].has_tab(t));
                }
            }
        }
    }

    /// The position after (`forward`) or before `p` among `n` places, going
    /// round.
    pub open spec fn cycle_index(n: int, p: int, forward: bool) -> int {
        if forward {
            (p + 1) % n
        } else if p == 0 {
            n - 1
        } else {
            p - 1
        }
    }

    /// Whether `self` is `other` with the session at (`i`, `a`) replaced by
    /// `t`, which keeps its id and kind.
    pub open spec fn tab_replaced(&self, other: &Self, i: int, a: int, t: Tab<B>) -> bool {
        &&& 0 <= i < other.live().len()
        &&& 0 <= a < other.live()[i].tabs@.len()
        &&& self.live().len() == other.live().len()
        &&& forall|k: int| 0 <= k < self.live().len() && k != i ==> #[trigger] self.live()[k] == other.live()[k]
        &&& self.live()[i].id == other.live()[i].id
        &&& self.live()[i].name == other.live()[i].name
        &&& self.live()[i].path == other.live()[i].path
        &&& self.live()[i].tabs@ == other.live()[i].tabs@.update(a, t)
        &&& t.id == other.live()[i].tabs@[a].id
        &&& t.is_agent == other.live()[i].tabs@[a].is_agent
        &&& self.next_group() == other.next_group()
        &&& self.next_tab() == other.next_tab()
        &&& self.same_settings(other)
    }

    /// A session whose shown buffer was pinned back to the live tail.
    pub open spec fn unpinned_tab(t: Tab<B>, alt: bool) -> Tab<B> {
        Tab { scroll_state: t.scroll_state.unpinned(alt), ..t }
    }

    /// Replacing one session by one with the same id and kind keeps the
    /// workspace well formed and its topology unchanged.
    proof fn lemma_tab_replaced(a: &Self, b: &Self, i: int, x: int, t: Tab<B>)
        requires
            a.wf(),
            b.tab_replaced(a, i, x, t),
            b.active_group() == a.active_group(),
            b.active_tab() == a.active_tab(),
        ensures
            b.wf(),
            b.topology() == a.topology(),
            forall|g: u64| a.has_group(g) == b.has_group(g),
            forall|u: u64| a.has_tab(u) == b.has_tab(u),
    {
        Self::lemma_same_shape(a, b);
        assert(b.live()[i].infos() =~= a.live()[i].infos());
        assert(b.topology() =~= a.topology());
    }

    /// Pins the shown buffer of the session at (`i`, `a`) to the live tail.
    fn unpin_at(&mut self, i: usize, a: usize)
        requires
            old(self).wf(),
            i < old(self).live().len(),
            a < old(self).live()[i as int].tabs@.len(),
        ensures
            final(self).wf(),
            final(self).topology() == old(self).topology(),
            final(self).active_group() == old(self).active_group(),
            final(self).active_tab() == old(self).active_tab(),
            exists|alt: bool|
                final(self).tab_replaced(
                    old(self),
                    i as int,
                    a as int,
                    #[trigger] Self::unpinned_tab(old(self).live()[i as int].tabs@[a as int], alt),
                ),
    {
        self.groups[i].tabs[a].unpin_current();
        proof {
            let alt = choose|alt: bool| self.groups@[i as int].tabs@[a as int].scroll_state
                == old(self).groups@[i as int].tabs@[a as int].scroll_state.unpinned(alt);
            let t = Self::unpinned_tab(old(self).live()[i as int].tabs@[a as int], alt);
            assert(self.groups@[i as int].tabs@ =~= old(self).groups@[i as int].tabs@.update(a as int, t));
            assert(self.tab_replaced(old(self), i as int, a as int, t));
            Self::lemma_tab_replaced(old(self), self, i as int, a as int, t);
        }
    }

    /// Makes the session with id `id` and its group active, and pins the
    /// buffer it shows to the live tail. An id that is not live changes
    /// nothing.
    pub fn set_active_tab(&mut self, id: u64)
        requires
            old(self).wf(),
        ensures
            final(self).wf(),
            !old(self).has_tab(id) ==> *final(self) == *old(self),
            old(self).has_tab(id) ==> exists|i: int, a: int, alt: bool|
                {
                    &&& old(self).live()[i].tabs@[a].id == id
                    &&& final(self).active_group() == Some(old(self).live()[i].id)
                    &&& final(self).active_tab() == Some(id)
                    &&& final(self).tab_replaced(
                        old(self),
                        i,
                        a,
                        #[trigger] Self::unpinned_tab(old(self).live()[i].tabs@[a], alt),
                    )
                },
            final(self).topology() == old(self).topology(),
    {
        let (i, a) = match self.find_tab(id) {
            Some(p) => p,
            None => return,
        };
        self.active_tab_id = Some(id);
        self.active_group_id = Some(self.groups[i].id);
        proof {
            assert(self.live()[i as int].has_tab(id));
            assert(self.live()[i as int].id == self.groups@[i as int].id);
            assert(self.has_group(self.groups@[i as int].id));
            assert(self.group_has_tab(self.groups@[i as int].id, id));
        }
        self.unpin_at(i, a);
    }

    /// Moves the active session to the next one of the active group, the
    /// first after the last, and pins its shown buffer to the live tail.
    pub fn switch_to_next_tab(&mut self)
        requires
            old(self).wf(),
        ensures
            final(self).wf(),
            final(self).topology() == old(self).topology(),
            final(self).active_group() == old(self).active_group(),
            old(self).active_tab() is None ==> *final(self) == *old(self),
            old(self).active_tab() matches Some(t) ==> exists|i: int, p: int, alt: bool|
                {
                    &&& 0 <= i < old(self).live().len()
                    &&& Some(old(self).live()[i].id) == old(self).active_group()
                    &&& 0 <= p < old(self).live()[i].tabs@.len()
                    &&& old(self).live()[i].tabs@[p].id == t
                    &&& final(self).active_tab() == Some(old(self).live()[i].tabs@[Self::cycle_index(old(self).live()[i].tabs@.len() as int, p, true)].id)
                    &&& final(self).tab_replaced(
                        old(self),
                        i,
                        Self::cycle_index(old(self).live()[i].tabs@.len() as int, p, true),
                        #[trigger] Self::unpinned_tab(old(self).live()[i].tabs@[Self::cycle_index(old(self).live()[i].tabs@.len() as int, p, true)], alt),
                    )
                },
    {
        self.switch_by(true)
    }

    /// Moves the active session to the previous one of the active group, the
    /// last before the first, and pins its shown buffer to the live tail.
    pub fn switch_to_prev_tab(&mut self)
        requires
            old(self).wf(),
        ensures
            final(self).wf(),
            final(self).topology() == old(self).topology(),
            final(self).active_group() == old(self).active_group(),
            old(self).active_tab() is None ==> *final(self) == *old(self),
            old(self).active_tab() matches Some(t) ==> exists|i: int, p: int, alt: bool|
                {
                    &&& 0 <= i < old(self).live().len()
                    &&& Some(old(self).live()[i].id) == old(self).active_group()
                    &&& 0 <= p < old(self).live()[i].tabs@.len()
                    &&& old(self).live()[i].tabs@[p].id == t
                    &&& final(self).active_tab() == Some(old(self).live()[i].tabs@[Self::cycle_index(old(self).live()[i].tabs@.len() as int, p, false)].id)
                    &&& final(self).tab_replaced(
                        old(self),
                        i,
                        Self::cycle_index(old(self).live()[i].tabs@.len() as int, p, false),
                        #[trigger] Self::unpinned_tab(old(self).live()[i].tabs@[Self::cycle_index(old(self).live()[i].tabs@.len() as int, p, false)], alt),
                    )
                },
    {
        self.switch_by(false)
    }

    /// Steps the active session forward or back in its group, wrapping round.
    fn switch_by(&mut self, forward: bool)
        requires
            old(self).wf(),
        ensures
            final(self).wf(),
            final(self).topology() == old(self).topology(),
            final(self).active_group() == old(self).active_group(),
            old(self).active_tab() is None ==> *final(self) == *old(self),
            old(self).active_tab() matches Some(t) ==> exists|i: int, p: int, alt: bool|
                {
                    &&& 0 <= i < old(self).live().len()
                    &&& Some(old(self).live()[i].id) == old(self).active_group()
                    &&& 0 <= p < old(self).live()[i].tabs@.len()
                    &&& old(self).live()[i].tabs@[p].id == t
                    &&& final(self).active_tab() == Some(old(self).live()[i].tabs@[Self::cycle_index(old(self).live()[i].tabs@.len() as int, p, forward)].id)
                    &&& final(self).tab_replaced(
                        old(self),
                        i,
                        Self::cycle_index(old(self).live()[i].tabs@.len() as int, p, forward),
                        #[trigger] Self::unpinned_tab(old(self).live()[i].tabs@[Self::cycle_index(old(self).live()[i].tabs@.len() as int, p, forward)], alt),
                    )
                },
    {
        let t = match self.active_tab_id {
            Some(t) => t,
            None => return,
        };
        let (i, p) = match self.find_tab(t) {
            Some(l) => l,
            None => return,
        };
        proof {
            let g = self.active_group_id.unwrap();
            let k = choose|k: int| 0 <= k < self.live().len() && self.live()[k].id == g && self.live()[k].has_tab(t);
            let x = choose|x: int| 0 <= x < self.live()[k].tabs@.len() && self.live()[k].tabs@[x].id == t;
            if k != i || x != p {
                assert(self.live()[k].tabs@[x].id != self.live()[i as int].tabs@[p as int].id);
            }
            assert(Some(self.live()[i as int].id) == self.active_group());
        }
        let n = self.groups[i].tabs.len();
        let q = if forward {
            (p + 1) % n
        } else if p == 0 {
            n - 1
        } else {
            p - 1
        };
        assert(q as int == Self::cycle_index(n as int, p as int, forward));
        let new_id = self.groups[i].tabs[q].id;
        self.active_tab_id = Some(new_id);
        proof {
            assert(self.live()[i as int].has_tab(new_id));
            assert(self.group_has_tab(self.groups@[i as int].id, new_id));
        }
        self.unpin_at(i, q);
    }

    /// Gives the session with id `id` a new title; an id that is not live
    /// changes nothing.
    pub fn set_title(&mut self, id: u64, title: String)
        requires
            old(self).wf(),
        ensures
            final(self).wf(),
            final(self).topology() == old(self).topology(),
            final(self).active_group() == old(self).active_group(),
            final(self).active_tab() == old(self).active_tab(),
            !old(self).has_tab(id) ==> *final(self) == *old(self),
            old(self).has_tab(id) ==> exists|i: int, a: int|
                {
                    &&& old(self).live()[i].tabs@[a].id == id
                    &&& final(self).tab_replaced(
                        old(self),
                        i,
                        a,
                        Tab { title, ..old(self).live()[i].tabs@[a] },
                    )
                },
    {
        let (i, a) = match self.find_tab(id) {
            Some(p) => p,
            None => return,
        };
        let ghost t = Tab { title, ..self.groups@[i as int].tabs@[a as int] };
        self.groups[i].tabs[a].set_title(title);
        proof {
            assert(self.groups@[i as int].tabs@ =~= old(self).groups@[i as int].tabs@.update(a as int, t));
            Self::lemma_tab_replaced(old(self), self, i as int, a as int, t);
        }
    }

    /// Applies one notification about session `tab_id`: an exit removes the
    /// session, as `remove` does, and a title change retitles it, as
    /// `set_title` does; anything else changes nothing.
    pub fn handle_event(&mut self, tab_id: u64, event: BackendEvent)
        requires
            old(self).wf(),
        ensures
            final(self).wf(),
            event is Other ==> *final(self) == *old(self),
            event is Exit ==> final(self).removed_from(old(self), tab_id),
            event matches BackendEvent::Title(title) ==> {
                &&& final(self).topology() == old(self).topology()
                &&& final(self).active_group() == old(self).active_group()
                &&& final(self).active_tab() == old(self).active_tab()
                &&& !old(self).has_tab(tab_id) ==> *final(self) == *old(self)
                &&& old(self).has_tab(tab_id) ==> exists|i: int, a: int|
                    {
                        &&& old(self).live()[i].tabs@[a].id == tab_id
                        &&& final(self).tab_replaced(
                            old(self),
                            i,
                            a,
                            Tab { title, ..old(self).live()[i].tabs@[a] },
                        )
                    }
            },
            final(self).next_group() == old(self).next_group(),
            final(self).next_tab() == old(self).next_tab(),
            final(self).same_settings(old(self)),
    {
        match event {
            BackendEvent::Exit => self.remove(tab_id),
            BackendEvent::Title(title) => self.set_title(tab_id, title),
            BackendEvent::Other => {},
        }
    }

    /// Drops every group and session, releasing all backends, as on close.
    /// The counters stay where they are.
    pub fn clear(&mut self)
        requires
            old(self).wf(),
        ensures
            final(self).wf(),
            final(self).topology() == Seq::<GroupModel>::empty(),
            final(self).active_group().is_none(),
            final(self).active_tab().is_none(),
            final(self).next_group() == old(self).next_group(),
            final(self).next_tab() == old(self).next_tab(),
            final(self).same_settings(old(self)),
    {
        self.groups.clear();
        self.active_group_id = None;
        self.active_tab_id = None;
        assert(self.topology() =~= Seq::<GroupModel>::empty());
    }

    /// The persistable projection of the workspace: every group in
    /// ascending id order with its name, path and sessions, without backends
    /// or scroll state.
    pub fn snapshot(&self) -> (r: Vec<TabGroup>)
        ensures
            r@.map_values(|g: TabGroup| g.model()) == self.topology(),
    {
        let mut r: Vec<TabGroup> = Vec::new();
        let mut i: usize = 0;
        while i < self.groups.len()
            invariant
                i <= self.groups@.len(),
                r@.len() == i,
                forall|k: int| 0 <= k < i ==> (#[trigger] r@[k]).model() == self.groups@[k].model(),
            decreases self.groups.len() - i,
        {
            let g = &self.groups[i];
            let mut tabs: Vec<TabInfo> = Vec::new();
            let mut a: usize = 0;
            while a < g.tabs.len()
                invariant
                    a <= g.tabs@.len(),
                    tabs@ == g.infos().take(a as int),
                decreases g.tabs.len() - a,
            {
                tabs.push(TabInfo { id: g.tabs[a].id, is_agent: g.tabs[a].is_agent });
                a = a + 1;
                assert(tabs@ =~= g.infos().take(a as int));
            }
            assert(tabs@ =~= g.infos());
            r.push(TabGroup { id: g.id, name: g.name.clone(), path: g.path.clone(), tabs });
            i = i + 1;
        }
        assert(r@.map_values(|g: TabGroup| g.model()) =~= self.topology());
        r
    }

    /// Whether some group is rooted at `path`.
    pub fn has_group_at(&self, path: &String) -> (r: bool)
        ensures
            r == exists|i: int| 0 <= i < self.topology().len() && #[trigger] self.topology()[i].path == path@,
    {
        let mut i: usize = 0;
        while i < self.groups.len()
            invariant
                i <= self.groups@.len(),
                forall|k: int| 0 <= k < i ==> self.groups@[k].path@ != path@,
            decreases self.groups.len() - i,
        {
            if self.groups[i].path == *path {
                assert(self.topology()[i as int].path == path@);
                return true;
            }
            i = i + 1;
        }
        proof {
            assert forall|k: int| 0 <= k < self.topology().len() implies #[trigger] self.topology()[k].path != path@ by {
                assert(self.topology()[k].path == self.groups@[k].path@);
            }
        }
        false
    }

    /// Makes sure some group is rooted at `path`, the directory the program
    /// was started in: when none is, opens one there (as `create_group`,
    /// active) and returns its id, for the caller to give it a session.
    pub fn ensure_group_at(&mut self, path: String) -> (r: Result<Option<u64>, WorkspaceError>)
        requires
            old(self).wf(),
        ensures
            final(self).wf(),
            (exists|i: int| 0 <= i < old(self).topology().len() && #[trigger] old(self).topology()[i].path == path@)
                ==> r == Ok::<Option<u64>, WorkspaceError>(None) && *final(self) == *old(self),
            !(exists|i: int| 0 <= i < old(self).topology().len() && #[trigger] old(self).topology()[i].path == path@)
                ==> {
                &&& r is Err <==> old(self).next_group() == u64::MAX
                &&& r matches Err(e) ==> e == WorkspaceError::IdsExhausted && *final(self) == *old(self)
                &&& r matches Ok(o) ==> {
                    &&& o == Some(old(self).next_group())
                    &&& final(self).next_group() == old(self).next_group() + 1
                    &&& final(self).topology() == old(self).topology().push(
                        GroupModel { id: old(self).next_group(), name: name_for(path@), path: path@, tabs: Seq::empty() },
                    )
                    &&& final(self).active_group() == Some(old(self).next_group())
                    &&& final(self).active_tab().is_none()
                    &&& final(self).next_tab() == old(self).next_tab()
                    &&& final(self).same_settings(old(self))
                }
            },
    {
        if self.has_group_at(&path) {
            return Ok(None);
        }
        match self.create_group(path) {
            Ok(g) => Ok(Some(g)),
            Err(e) => Err(e),
        }
    }

    /// The command that plain sessions run.
    pub fn default_shell_cmd(&self) -> (r: &String)
        ensures
            r@ == self.shell_cmd(),
    {
        &self.default_shell_cmd
    }

    /// The command that agent sessions run.
    pub fn default_agent_cmd(&self) -> (r: &String)
        ensures
            r@ == self.agent_cmd(),
    {
        &self.default_agent_cmd
    }

    /// Whether shells start in login mode.
    pub fn run_as_login_shell(&self) -> (r: bool)
        ensures
            r == self.login_shell(),
    {
        self.run_as_login_shell
    }

    pub fn set_default_shell_cmd(&mut self, shell_cmd: String)
        requires
            old(self).wf(),
        ensures
            final(self).wf(),
            final(self).shell_cmd() == shell_cmd@,
            final(self).agent_cmd() == old(self).agent_cmd(),
            final(self).login_shell() == old(self).login_shell(),
            final(self).live() == old(self).live(),
            final(self).active_group() == old(self).active_group(),
            final(self).active_tab() == old(self).active_tab(),
            final(self).next_group() == old(self).next_group(),
            final(self).next_tab() == old(self).next_tab(),
    {
        self.default_shell_cmd = shell_cmd;
        proof {
            Self::lemma_same_shape(old(self), self);
        }
    }

    pub fn set_default_agent_cmd(&mut self, agent_cmd: String)
        requires
            old(self).wf(),
        ensures
            final(self).wf(),
            final(self).agent_cmd() == agent_cmd@,
            final(self).shell_cmd() == old(self).shell_cmd(),
            final(self).login_shell() == old(self).login_shell(),
            final(self).live() == old(self).live(),
            final(self).active_group() == old(self).active_group(),
            final(self).active_tab() == old(self).active_tab(),
            final(self).next_group() == old(self).next_group(),
            final(self).next_tab() == old(self).next_tab(),
    {
        self.default_agent_cmd = agent_cmd;
        proof {
            Self::lemma_same_shape(old(self), self);
        }
    }

    pub fn set_run_as_login_shell(&mut self, run_as_login_shell: bool)
        requires
            old(self).wf(),
        ensures
            final(self).wf(),
            final(self).login_shell() == run_as_login_shell,
            final(self).shell_cmd() == old(self).shell_cmd(),
            final(self).agent_cmd() == old(self).agent_cmd(),
            final(self).live() == old(self).live(),
            final(self).active_group() == old(self).active_group(),
            final(self).active_tab() == old(self).active_tab(),
            final(self).next_group() == old(self).next_group(),
            final(self).next_tab() == old(self).next_tab(),
    {
        self.run_as_login_shell = run_as_login_shell;
        proof {
            Self::lemma_same_shape(old(self), self);
        }
    }

    /// Rebuilds a workspace from a persisted snapshot, in whatever order its
    /// groups come, each session with the backend spawned for it; a session
    /// whose spawn failed is left out. The groups take ascending id order, the
    /// counters move past every id of the snapshot, and the lowest group and
    /// its first session become active. A snapshot that contradicts itself
    /// (a repeated id, or the largest id) is refused as a whole.
    pub fn restore(
        input: Vec<RestoredGroup<B>>,
        default_shell_cmd: String,
        default_agent_cmd: String,
        run_as_login_shell: bool,
    ) -> (r: Result<TabManager<B>, WorkspaceError>)
        ensures
            r is Err ==> !restorable_any(input@),
            r is Ok ==> restorable_any(input@),
            r matches Err(e) ==> e == WorkspaceError::Malformed,
            r matches Ok(m) ==> {
                &&& m.wf()
                &&& m.restored_from(input@)
                &&& m.shell_cmd() == default_shell_cmd@
                &&& m.agent_cmd() == default_agent_cmd@
                &&& m.login_shell() == run_as_login_shell
            },
    {
        let ghost orig = input@;
        let sorted = match sort_by_group_id(input) {
            Some(v) => v,
            None => {
                proof {
                    let (i, j) = choose|i: int, j: int|
                        0 <= i < j < orig.len() && #[trigger] orig[i].group.id == #[trigger] orig[j].group.id;
                    let os = persisted_models(orig);
                    assert(os[i].id == os[j].id);
                }
                return Err(WorkspaceError::Malformed);
            },
        };
        let ghost sv = sorted@;
        let ghost (perm, inv) = choose|perm: Seq<int>, inv: Seq<int>| rearranged(sv, orig, perm, inv);
        proof {
            lemma_rearranged_restorable(sv, orig, perm, inv);
        }
        let r = Self::restore_ascending(sorted, default_shell_cmd, default_agent_cmd, run_as_login_shell);
        proof {
            if r is Ok {
                let m = r->Ok_0;
                if ids_ascending(orig) {
                    lemma_rearranged_ascending(sv, orig, perm, inv);
                }
                assert(rearranged(sv, orig, perm, inv));
            }
        }
        r
    }

    /// `self` is what restoring `input` gives: `input` rearranged in
    /// ascending id order (`sv`), each group as handed in but for the
    /// sessions whose spawn failed; the lowest group and its first session
    /// active; the group counter one past the largest group id, and the
    /// session counter one past the largest session id (or 0). When `input`
    /// ascends already, the groups keep its order.
    pub open spec fn restored_from(&self, input: Seq<RestoredGroup<B>>) -> bool {
        &&& exists|sv: Seq<RestoredGroup<B>>, perm: Seq<int>, inv: Seq<int>|
            #![trigger rearranged(sv, input, perm, inv)]
            {
                &&& rearranged(sv, input, perm, inv)
                &&& ids_ascending(sv)
                &&& self.topology() == sv.map_values(|g: RestoredGroup<B>| g.restored_model())
                &&& self.next_group() == if sv.len() == 0 {
                    0
                } else {
                    persisted_models(sv).last().id + 1
                }
                &&& bound_of_read(persisted_models(sv), sv.len() as int, 0, self.next_tab())
            }
        &&& ids_ascending(input) ==> self.topology() == input.map_values(|g: RestoredGroup<B>| g.restored_model())
        &&& (self.active_group(), self.active_tab()) == Self::fallback_active(self.topology())
    }

    /// Rebuilds a workspace from groups given in ascending id order; see
    /// `restore`.
    fn restore_ascending(
        input: Vec<RestoredGroup<B>>,
        default_shell_cmd: String,
        default_agent_cmd: String,
        run_as_login_shell: bool,
    ) -> (r: Result<TabManager<B>, WorkspaceError>)
        ensures
            r is Err ==> !restorable(input@),
            r is Ok ==> restorable(input@),
            r matches Err(e) ==> e == WorkspaceError::Malformed,
            r matches Ok(m) ==> {
                let snap = persisted_models(input@);
                &&& m.wf()
                &&& m.topology() == input@.map_values(|g: RestoredGroup<B>| g.restored_model())
                &&& (m.active_group(), m.active_tab()) == Self::fallback_active(m.topology())
                &&& m.next_group() == if snap.len() == 0 {
                    0
                } else {
                    snap.last().id + 1
                }
                &&& bound_of_read(snap, snap.len() as int, 0, m.next_tab())
                &&& m.shell_cmd() == default_shell_cmd@
                &&& m.agent_cmd() == default_agent_cmd@
                &&& m.login_shell() == run_as_login_shell
            },
    {
        let ghost orig = input@;
        let ghost snap = persisted_models(orig);
        let ghost shell0 = default_shell_cmd@;
        let ghost agent0 = default_agent_cmd@;
        let mut m = Self::new(default_shell_cmd, default_agent_cmd, run_as_login_shell);
        let mut seen: Vec<u64> = Vec::new();
        let mut pending = input;
        let total = pending.len();
        let mut i: usize = 0;
        assert(pending@ =~= orig.skip(0));
        assert(m.live().len() == m.topology().len());
        while pending.len() > 0
            invariant
                orig == input@,
                i <= orig.len(),
                orig.len() == total,
                pending@ == orig.skip(i as int),
                snap == persisted_models(orig),
                m.wf(),
                m.live().len() == i,
                forall|k: int| 0 <= k < i ==> (#[trigger] m.live()[k]).model() == orig[k].restored_model(),
                m.active_group() is None,
                m.active_tab() is None,
                m.shell_cmd() == shell0,
                m.agent_cmd() == agent0,
                m.login_shell() == run_as_login_shell,
                forall|k: int, j: int| 0 <= k < j < i ==> #[trigger] snap[k].id < #[trigger] snap[j].id,
                forall|k: int| 0 <= k < i ==> #[trigger] snap[k].id < u64::MAX,
                forall|k: int| 0 <= k < i ==> (#[trigger] orig[k]).backends@.len() == orig[k].group.tabs@.len(),
                m.next_group() == if i == 0 {
                    0
                } else {
                    snap[i - 1].id + 1
                },
                read_distinct(snap, i as int, 0),
                seen_exactly(snap, i as int, 0, seen@),
                bound_of_read(snap, i as int, 0, m.next_tab()),
                forall|k: int, x: int|
                    0 <= k < m.live().len() && 0 <= x < m.live()[k].tabs@.len() ==> seen@.contains(
                        #[trigger] m.live()[k].tabs@[x].id,
                    ),
            decreases pending.len(),
        {
            let ghost gm = snap[i as int];
            let rg = pending.remove(0);
            assert(rg == orig[i as int]);
            let RestoredGroup { group, mut backends } = rg;
            let ghost present = orig[i as int].present();
            let TabGroup { id, name, path, tabs } = group;
            assert(gm.tabs == tabs@ && gm.id == id);
            if id < m.next_group_id || id == u64::MAX || backends.len() != tabs.len() {
                proof {
                    assert(snap[i as int] == orig[i as int].group.model());
                    if id < m.next_group() {
                        assert(snap[i - 1].id >= snap[i as int].id);
                        assert(!snapshot_consistent(snap));
                    } else if id == u64::MAX {
                        assert(!snapshot_consistent(snap));
                    } else {
                        assert(orig[i as int].backends@.len() != orig[i as int].group.tabs@.len());
                    }
                }
                assert(!restorable(orig));
                return Err(WorkspaceError::Malformed);
            }
            let ghost live_before = m.live();
            let mut live_tabs: Vec<Tab<B>> = Vec::new();
            let mut a: usize = 0;
            assert(backends@ =~= orig[i as int].backends@.skip(0));
            assert(tabs@.take(0) =~= Seq::<TabInfo>::empty());
            assert(live_tabs@.map_values(|t: Tab<B>| info_of(t)) =~= Seq::<TabInfo>::empty());
            while a < tabs.len()
                invariant
                    orig == input@,
                    i < orig.len(),
                    snap == persisted_models(orig),
                    gm == snap[i as int],
                    gm.tabs == tabs@,
                    present == orig[i as int].present(),
                    tabs@.len() == orig[i as int].backends@.len(),
                    a <= tabs@.len(),
                    backends@ == orig[i as int].backends@.skip(a as int),
                    live_tabs@.map_values(|t: Tab<B>| info_of(t)) == kept(tabs@.take(a as int), present),
                    m.wf(),
                    m.live() == live_before,
                    m.live().len() == i,
                    m.next_group() <= id,
                    m.shell_cmd() == shell0,
                    m.agent_cmd() == agent0,
                    m.login_shell() == run_as_login_shell,
                    m.active_group() is None,
                    m.active_tab() is None,
                    read_distinct(snap, i as int, a as int),
                    seen_exactly(snap, i as int, a as int, seen@),
                    bound_of_read(snap, i as int, a as int, m.next_tab()),
                    forall|k: int, x: int|
                        0 <= k < m.live().len() && 0 <= x < m.live()[k].tabs@.len() ==> seen@.contains(
                            #[trigger] m.live()[k].tabs@[x].id,
                        ),
                    forall|x: int| 0 <= x < live_tabs@.len() ==> seen@.contains(#[trigger] live_tabs@[x].id),
                    forall|x: int| 0 <= x < live_tabs@.len() ==> #[trigger] live_tabs@[x].id < m.next_tab(),
                    forall|x: int, k: int, y: int|
                        0 <= x < live_tabs@.len() && 0 <= k < m.live().len() && 0 <= y < m.live()[k].tabs@.len()
                            ==> #[trigger] live_tabs@[x].id != #[trigger] m.live()[k].tabs@[y].id,
                    forall|x: int, y: int|
                        0 <= x < live_tabs@.len() && 0 <= y < live_tabs@.len() && x != y
                            ==> #[trigger] live_tabs@[x].id != #[trigger] live_tabs@[y].id,
                decreases tabs.len() - a,
            {
                let info = tabs[a];
                assert(snap[i as int].tabs[a as int] == info);
                if info.id == u64::MAX {
                    proof {
                        assert(at(snap, i as int, a as int));
                        assert(!snapshot_consistent(snap));
                    }
                    assert(!restorable(orig));
                    return Err(WorkspaceError::Malformed);
                }
                if contains_id(&seen, info.id) {
                    proof {
                        let (k, y) = choose|k: int, y: int|
                            at(snap, k, y) && before(k, y, i as int, a as int) && #[trigger] snap[k].tabs[y].id
                                == info.id;
                        assert(snap[k].tabs[y].id == snap[i as int].tabs[a as int].id);
                        assert(at(snap, i as int, a as int));
                        assert(k != i || y != a);
                        assert(!snapshot_consistent(snap));
                    }
                    assert(!restorable(orig));
                    return Err(WorkspaceError::Malformed);
                }
                let ghost old_seen = seen@;
                seen.push(info.id);
                if info.id >= m.next_tab_id {
                    m.next_tab_id = info.id + 1;
                }
                let b = backends.remove(0);
                assert(b == orig[i as int].backends@[a as int]);
                let ghost old_live_tabs = live_tabs@;
                match b {
                    Some(b) => {
                        live_tabs.push(Tab::new(info.id, b, info.is_agent));
                    },
                    None => {},
                }
                a = a + 1;
                proof {
                    assert(tabs@.take(a as int).drop_last() =~= tabs@.take(a - 1));
                    assert(live_tabs@.map_values(|t: Tab<B>| info_of(t)) =~= kept(tabs@.take(a as int), present));
                    assert(seen@ == old_seen.push(info.id));
                    assert forall|x: u64|
                        seen@.contains(x) <==> exists|k: int, y: int|
                            at(snap, k, y) && before(k, y, i as int, a as int) && #[trigger] snap[k].tabs[y].id == x by {
                        if seen@.contains(x) {
                            if x == info.id {
                                assert(at(snap, i as int, a - 1) && before(i as int, a - 1, i as int, a as int)
                                    && snap[i as int].tabs[a - 1].id == x);
                            } else {
                                let j = choose|j: int| 0 <= j < seen@.len() && seen@[j] == x;
                                assert(old_seen[j] == x);
                                assert(old_seen.contains(x));
                                let (k, y) = choose|k: int, y: int|
                                    at(snap, k, y) && before(k, y, i as int, a - 1) && #[trigger] snap[k].tabs[y].id == x;
                                assert(before(k, y, i as int, a as int));
                            }
                        }
                        if exists|k: int, y: int|
                            at(snap, k, y) && before(k, y, i as int, a as int) && #[trigger] snap[k].tabs[y].id == x {
                            let (k, y) = choose|k: int, y: int|
                                at(snap, k, y) && before(k, y, i as int, a as int) && #[trigger] snap[k].tabs[y].id == x;
                            if k == i && y == a - 1 {
                                assert(seen@[old_seen.len() as int] == x);
                            } else {
                                assert(before(k, y, i as int, a - 1));
                                assert(old_seen.contains(x));
                                let j = choose|j: int| 0 <= j < old_seen.len() && old_seen[j] == x;
                                assert(seen@[j] == x);
                            }
                        }
                    }
                    assert(forall|k: int, y: int| at(snap, k, y) && before(k, y, i as int, a - 1) ==> #[trigger] snap[k].tabs[y].id != info.id);
                    assert(bound_of_read(snap, i as int, a as int, m.next_tab())) by {
                        if info.id + 1 == m.next_tab() {
                            assert(at(snap, i as int, a - 1) && before(i as int, a - 1, i as int, a as int)
                                && snap[i as int].tabs[a - 1].id + 1 == m.next_tab());
                        } else {
                            let (k, y) = choose|k: int, y: int|
                                at(snap, k, y) && before(k, y, i as int, a - 1) && #[trigger] snap[k].tabs[y].id + 1 == m.next_tab();
                            assert(before(k, y, i as int, a as int));
                        }
                    }
                    assert forall|k: int, x: int|
                        0 <= k < m.live().len() && 0 <= x < m.live()[k].tabs@.len() implies
                        #[trigger] m.live()[k].tabs@[x].id < m.next_tab() by {
                    }
                    assert(m.wf());
                }
            }
            let ghost old_m = m;
            proof {
                assert(tabs@.take(a as int) =~= tabs@);
            }
            m.groups.push(LiveGroup { id, name, path, tabs: live_tabs });
            m.next_group_id = id + 1;
            i = i + 1;
            proof {
                let n = (i - 1) as int;
                assert(m.live()[n].tabs@ == live_tabs@);
                assert(m.live()[n].model() == orig[n].restored_model()) by {
                    assert(m.live()[n].infos() == live_tabs@.map_values(|t: Tab<B>| info_of(t)));
                }
                assert forall|k: int| 0 <= k < n implies #[trigger] m.live()[k] == old_m.live()[k] by {}
                assert(m.live()[n].id == id);
                assert(old_m.next_group() <= id);
                assert(m.groups_ordered()) by {
                    assert forall|x: int, y: int| 0 <= x < y < m.live().len() implies #[trigger] m.live()[x].id < #[trigger] m.live()[y].id by {
                        if y == n {
                            assert(old_m.live()[x].id < old_m.next_group());
                        } else {
                            assert(old_m.live()[x].id < old_m.live()[y].id);
                        }
                    }
                }
                assert(m.tabs_distinct()) by {
                    assert forall|k: int, x: int, j: int, y: int|
                        0 <= k < m.live().len() && 0 <= j < m.live().len() && 0 <= x < m.live()[k].tabs@.len()
                            && 0 <= y < m.live()[j].tabs@.len() && (k != j || x != y) implies #[trigger] m.live()[k].tabs@[x].id
                            != #[trigger] m.live()[j].tabs@[y].id by {
                        if k < n && j < n {
                            assert(old_m.live()[k].tabs@[x].id != old_m.live()[j].tabs@[y].id);
                        } else if k < n && j == n {
                            assert(seen@.contains(old_m.live()[k].tabs@[x].id));
                        } else if k == n && j < n {
                            assert(seen@.contains(old_m.live()[j].tabs@[y].id));
                        }
                    }
                }
                assert(m.ids_below_counters()) by {
                    assert forall|k: int| 0 <= k < m.live().len() implies #[trigger] m.live()[k].id < m.next_group() by {
                        if k < n {
                            assert(old_m.live()[k].id < old_m.next_group());
                        }
                    }
                    assert forall|k: int, x: int| 0 <= k < m.live().len() && 0 <= x < m.live()[k].tabs@.len()
                        implies #[trigger] m.live()[k].tabs@[x].id < m.next_tab() by {
                        if k < n {
                            assert(old_m.live()[k].tabs@[x].id < old_m.next_tab());
                        }
                    }
                }
                assert forall|k: int, x: int|
                    0 <= k < m.live().len() && 0 <= x < m.live()[k].tabs@.len() implies seen@.contains(
                        #[trigger] m.live()[k].tabs@[x].id) by {
                    if k < n {
                        assert(seen@.contains(old_m.live()[k].tabs@[x].id));
                    }
                }
                assert(pending@ =~= orig.skip(i as int));
            }
        }
        proof {
            assert(orig.skip(i as int).len() == 0);
            assert(i == orig.len());
            assert(snapshot_consistent(snap)) by {
                assert forall|k: int, y: int| at(snap, k, y) implies before(k, y, i as int, 0) by {}
            }
            assert(restorable(orig));
            assert(m.topology() =~= orig.map_values(|g: RestoredGroup<B>| g.restored_model()));
        }
        if m.groups.len() > 0 {
            m.active_group_id = Some(m.groups[0].id);
            m.active_tab_id = if m.groups[0].tabs.len() > 0 {
                Some(m.groups[0].tabs[0].id)
            } else {
                None
            };
            proof {
                assert(m.live()[0] == m.groups@[0]);
                assert(m.has_group(m.groups@[0].id));
                if m.groups@[0].tabs@.len() > 0 {
                    assert(m.groups@[0].has_tab(m.groups@[0].tabs@[0].id));
                    assert(m.group_has_tab(m.groups@[0].id, m.groups@[0].tabs@[0].id));
                }
                assert(m.topology()[0].tabs == m.groups@[0].infos());
            }
        }
        Ok(m)
    }

    /// Whether the live session `t` is an agent session.
    pub open spec fn is_agent_tab(&self, t: u64) -> bool {
        exists|i: int, a: int|
            0 <= i < self.live().len() && 0 <= a < self.live()[i].tabs@.len() && self.live()[i].tabs@[a].id
                == t && #[trigger] self.live()[i].tabs@[a].is_agent
    }

    /// The side-panel label of session `id` shown under group `group_id`.
    pub fn get_tab_name(&self, group_id: u64, id: u64) -> (r: String)
        requires
            self.wf(),
        ensures
            (exists|i: int, p: int|
                0 <= i < self.live().len() && self.live()[i].id == group_id && 0 <= p
                    < self.live()[i].tabs@.len() && self.live()[i].tabs@[p].id == id && r@ == tab_label(
                    (p + 1) as nat,
                    self.is_agent_tab(id),
                    true,
                )) || (!self.group_has_tab(group_id, id) && r@ == tab_label(
                (id + 1) as nat,
                self.is_agent_tab(id),
                false,
            )),
    {
        let is_agent = match self.find_tab(id) {
            Some((i, a)) => self.groups[i].tabs[a].is_agent,
            None => false,
        };
        proof {
            if is_agent {
                let (i, a) = choose|i: int, a: int| 0 <= i < self.live().len() && 0 <= a < self.live()[i].tabs@.len()
                    && self.live()[i].tabs@[a].id == id && self.live()[i].tabs@[a].is_agent;
            }
            if self.is_agent_tab(id) {
                let (i, a) = choose|i: int, a: int| 0 <= i < self.live().len() && 0 <= a < self.live()[i].tabs@.len()
                    && self.live()[i].tabs@[a].id == id && #[trigger] self.live()[i].tabs@[a].is_agent;
                assert(self.live()[i].has_tab(id));
            }
        }
        let mut listed: Option<usize> = None;
        if let Some(i) = self.find_group(group_id) {
            let tabs = &self.groups[i].tabs;
            let mut p: usize = 0;
            while p < tabs.len() && listed.is_none()
                invariant
                    i < self.groups@.len(),
                    tabs@ == self.groups@[i as int].tabs@,
                    p <= tabs@.len(),
                    listed is None ==> forall|q: int| 0 <= q < p ==> tabs@[q].id != id,
                    listed matches Some(q) ==> q < tabs@.len() && tabs@[q as int].id == id,
                decreases tabs.len() - p + if listed is None { 1int } else { 0int },
            {
                if tabs[p].id == id {
                    listed = Some(p);
                } else {
                    p = p + 1;
                }
            }
            proof {
                if listed is None {
                    assert forall|k: int| 0 <= k < self.live().len() && self.live()[k].id == group_id implies !self.live()[k].has_tab(id) by {
                        if k != i {
                            if k < i { assert(self.live()[k].id < self.live()[i as int].id); }
                            else { assert(self.live()[i as int].id < self.live()[k].id); }
                        }
                    }
                }
            }
        }
        proof {
            reveal_strlit(". Agent \u{1F4AC}");
            reveal_strlit(". \u{2795} Agent");
            reveal_strlit(". Terminal");
        }
        let (n, suffix) = match listed {
            Some(p) => (p as u128 + 1, if is_agent { ". Agent \u{1F4AC}" } else { ". Terminal" }),
            None => (id as u128 + 1, if is_agent { ". \u{2795} Agent" } else { ". Terminal" }),
        };
        decimal(n).concat(suffix)
    }

    /// Where the active session stands.
    fn active_position(&self) -> (r: Option<(usize, usize)>)
        requires
            self.wf(),
        ensures
            r is None <==> self.active_tab() is None,
            r matches Some((i, a)) ==> i < self.live().len() && a < self.live()[i as int].tabs@.len()
                && Some(self.live()[i as int].tabs@[a as int].id) == self.active_tab()
                && Some(self.live()[i as int].id) == self.active_group(),
    {
        let t = match self.active_tab_id {
            Some(t) => t,
            None => return None,
        };
        let r = self.find_tab(t);
        proof {
            let g = self.active_group_id.unwrap();
            let k = choose|k: int| 0 <= k < self.live().len() && self.live()[k].id == g && self.live()[k].has_tab(t);
            let x = choose|x: int| 0 <= x < self.live()[k].tabs@.len() && self.live()[k].tabs@[x].id == t;
            let (i, a) = r.unwrap();
            if k != i || x != a {
                assert(self.live()[k].tabs@[x].id != self.live()[i as int].tabs@[a as int].id);
            }
        }
        r
    }

    /// The active session, if there is one.
    pub fn get_active(&self) -> (r: Option<&Tab<B>>)
        requires
            self.wf(),
        ensures
            r is None <==> self.active_tab() is None,
            r matches Some(t) ==> Some(t.id) == self.active_tab() && exists|i: int, a: int|
                0 <= i < self.live().len() && 0 <= a < self.live()[i].tabs@.len() && self.live()[i].tabs@[a]
                    == *t,
    {
        match self.active_position() {
            Some((i, a)) => Some(&self.groups[i].tabs[a]),
            None => None,
        }
    }

    /// The backend of the active session, to draw it and feed it input.
    pub fn active_backend(&mut self) -> (r: Option<&mut B>)
        requires
            old(self).wf(),
        ensures
            r is None <==> old(self).active_tab() is None,
            r is None ==> *final(self) == *old(self),
            r matches Some(b) ==> exists|i: int, a: int|
                {
                    &&& Some(old(self).live()[i].tabs@[a].id) == old(self).active_tab()
                    &&& *b == old(self).live()[i].tabs@[a].backend
                    &&& final(self).tab_replaced(
                        old(self),
                        i,
                        a,
                        Tab { backend: *final(b), ..old(self).live()[i].tabs@[a] },
                    )
                },
            final(self).active_group() == old(self).active_group(),
            final(self).active_tab() == old(self).active_tab(),
    {
        match self.active_position() {
            Some((i, a)) => Some(&mut self.groups[i].tabs[a].backend),
            None => None,
        }
    }

    /// Runs one frame of the scroll heuristic on the active session, given
    /// what its backend reports: the screen mode and the total line count.
    /// Tells whether the buffer was cleared, on which the caller moves the
    /// backend's view to the bottom and drops its history.
    pub fn sync_active(&mut self, is_alternate: bool, total_lines: usize) -> (cleared: bool)
        requires
            old(self).wf(),
        ensures
            final(self).wf(),
            final(self).topology() == old(self).topology(),
            final(self).active_group() == old(self).active_group(),
            final(self).active_tab() == old(self).active_tab(),
            old(self).active_tab() is None ==> *final(self) == *old(self) && !cleared,
            old(self).active_tab() is Some ==> exists|i: int, a: int|
                {
                    &&& Some(old(self).live()[i].tabs@[a].id) == old(self).active_tab()
                    &&& cleared == old(self).live()[i].tabs@[a].scroll_state.clears(is_alternate, total_lines as int)
                    &&& final(self).tab_replaced(
                        old(self),
                        i,
                        a,
                        Tab {
                            scroll_state: old(self).live()[i].tabs@[a].scroll_state.after_frame(
                                old(self).live()[i].tabs@[a].was_alternate_last_frame,
                                is_alternate,
                                total_lines,
                            ),
                            was_alternate_last_frame: is_alternate,
                            ..old(self).live()[i].tabs@[a]
                        },
                    )
                },
    {
        let (i, a) = match self.active_position() {
            Some(p) => p,
            None => return false,
        };
        let cleared = self.groups[i].tabs[a].begin_frame(is_alternate, total_lines);
        proof {
            let t = self.groups@[i as int].tabs@[a as int];
            let o = old(self).groups@[i as int].tabs@[a as int];
            assert(t == Tab {
                scroll_state: o.scroll_state.after_frame(o.was_alternate_last_frame, is_alternate, total_lines),
                was_alternate_last_frame: is_alternate,
                ..o
            });
            assert(self.groups@[i as int].tabs@ =~= old(self).groups@[i as int].tabs@.update(a as int, t));
            Self::lemma_tab_replaced(old(self), self, i as int, a as int, t);
            assert(self.tab_replaced(old(self), i as int, a as int, t));
            assert(old(self).live()[i as int].tabs@[a as int] == o);
        }
        cleared
    }

    /// Records, after layout, whether the view of the active session sits at
    /// the bottom; only its normal buffer keeps that flag.
    pub fn record_active_view(&mut self, is_alternate: bool, at_bottom: bool)
        requires
            old(self).wf(),
        ensures
            final(self).wf(),
            final(self).topology() == old(self).topology(),
            final(self).active_group() == old(self).active_group(),
            final(self).active_tab() == old(self).active_tab(),
            old(self).active_tab() is None ==> *final(self) == *old(self),
            old(self).active_tab() is Some ==> exists|i: int, a: int, t: Tab<B>|
                #![trigger final(self).tab_replaced(old(self), i, a, t)]
                {
                    &&& Some(old(self).live()[i].tabs@[a].id) == old(self).active_tab()
                    &&& final(self).tab_replaced(old(self), i, a, t)
                    &&& (is_alternate ==> t == old(self).live()[i].tabs@[a])
                    &&& (!is_alternate ==> t == Tab {
                        scroll_state: TabScrollState {
                            normal: ScrollState {
                                user_scrolled_up: !at_bottom,
                                ..old(self).live()[i].tabs@[a].scroll_state.normal
                            },
                            ..old(self).live()[i].tabs@[a].scroll_state
                        },
                        ..old(self).live()[i].tabs@[a]
                    })
                },
    {
        let (i, a) = match self.active_position() {
            Some(p) => p,
            None => return,
        };
        self.groups[i].tabs[a].scroll_state.record_view_position(is_alternate, at_bottom);
        proof {
            let t = self.groups@[i as int].tabs@[a as int];
            let o = old(self).groups@[i as int].tabs@[a as int];
            if !is_alternate {
                assert(t.scroll_state.normal == ScrollState { user_scrolled_up: !at_bottom, ..o.scroll_state.normal });
            }
            assert(old(self).live()[i as int].tabs@[a as int] == o);
            assert(self.groups@[i as int].tabs@ =~= old(self).groups@[i as int].tabs@.update(a as int, t));
            Self::lemma_tab_replaced(old(self), self, i as int, a as int, t);
            assert(self.tab_replaced(old(self), i as int, a as int, t));
        }
    }

    /// Consumes the just-created flag of the active session: true only on
    /// its first frame.
    pub fn take_active_just_created(&mut self) -> (r: bool)
        requires
            old(self).wf(),
        ensures
            final(self).wf(),
            final(self).topology() == old(self).topology(),
            final(self).active_group() == old(self).active_group(),
            final(self).active_tab() == old(self).active_tab(),
            old(self).active_tab() is None ==> *final(self) == *old(self) && !r,
            old(self).active_tab() is Some ==> exists|i: int, a: int|
                {
                    &&& Some(old(self).live()[i].tabs@[a].id) == old(self).active_tab()
                    &&& r == old(self).live()[i].tabs@[a].just_created
                    &&& final(self).tab_replaced(
                        old(self),
                        i,
                        a,
                        Tab { just_created: false, ..old(self).live()[i].tabs@[a] },
                    )
                },
    {
        let (i, a) = match self.active_position() {
            Some(p) => p,
            None => return false,
        };
        let r = self.groups[i].tabs[a].take_just_created();
        proof {
            let t = self.groups@[i as int].tabs@[a as int];
            assert(self.groups@[i as int].tabs@ =~= old(self).groups@[i as int].tabs@.update(a as int, t));
            Self::lemma_tab_replaced(old(self), self, i as int, a as int, t);
        }
        r
    }

    /// The position of the group with id `g`.
    fn find_group(&self, g: u64) -> (r: Option<usize>)
        requires
            self.groups_ordered(),
        ensures
            r matches Some(i) ==> i < self.live().len() && self.live()[i as int].id == g,
            r is None <==> !self.has_group(g),
    {
        let mut i: usize = 0;
        while i < self.groups.len()
            invariant
                i <= self.groups@.len(),
                forall|k: int| 0 <= k < i ==> self.groups@[k].id != g,
            decreases self.groups.len() - i,
        {
            if self.groups[i].id == g {
                return Some(i);
            }
            i = i + 1;
        }
        None
    }

    /// The position of the live session with id `t`: its group, then its
    /// place in that group.
    fn find_tab(&self, t: u64) -> (r: Option<(usize, usize)>)
        ensures
            r matches Some((i, a)) ==> i < self.live().len() && a < self.live()[i as int].tabs@.len()
                && self.live()[i as int].tabs@[a as int].id == t,
            r is None <==> !self.has_tab(t),
    {
        let mut i: usize = 0;
        while i < self.groups.len()
            invariant
                i <= self.groups@.len(),
                forall|k: int| 0 <= k < i ==> !(#[trigger] self.groups@[k]).has_tab(t),
            decreases self.groups.len() - i,
        {
            let tabs = &self.groups[i].tabs;
            let mut a: usize = 0;
            while a < tabs.len()
                invariant
                    i < self.groups@.len(),
                    tabs@ == self.groups@[i as int].tabs@,
                    a <= tabs@.len(),
                    forall|b: int| 0 <= b < a ==> tabs@[b].id != t,
                decreases tabs.len() - a,
            {
                if tabs[a].id == t {
                    return Some((i, a));
                }
                a = a + 1;
            }
            i = i + 1;
        }
        None
    }
}

} // verus!
