use vstd::prelude::*;
use vstd::set_lib::lemma_len_subset;

use crate::ledger::texts_of;
use crate::refs::{Ref, RefDiff};

verus! {

/// The name of the branch that keeps commit `sha` reachable: `keep-<sha>`.
pub open spec fn branch_keeper_name(sha: Seq<char>) -> Seq<char> {
    "keep-"@ + sha
}

/// The reference that keeps the annotated tag object `sha`:
/// `refs/kept-tags/tag-<sha>`, a namespace of its own.
pub open spec fn tag_keeper_name(sha: Seq<char>) -> Seq<char> {
    "refs/kept-tags/tag-"@ + sha
}

/// Whether a frontier reference is kept by a tag-style keeper: it is a tag,
/// and its target is an annotated tag object.
pub open spec fn is_tag_kept(r: Ref, annotated: bool) -> bool {
    r.tag && annotated
}

/// A preservation reference to create.
pub enum Keeper {
    /// A reference under `refs/kept-tags/`, with its full name.
    Tag(String),
    /// A local branch, with its name.
    Branch(String),
}

/// Whether frontier reference `r` is kept by a tag-style keeper, where
/// `annotated` tells whether its commit is an annotated tag object. Only a
/// tag's target needs asking about: for a branch the answer is `false`.
pub fn tag_kept(r: &Ref, annotated: bool) -> (b: bool)
    ensures
        b == is_tag_kept(*r, annotated),
{
    r.tag && annotated
}

/// The name of the branch keeper of `sha`.
pub fn branch_keeper(sha: &String) -> (r: String)
    ensures
        r@ == branch_keeper_name(sha@),
{
    String::from_str("keep-").concat(sha.as_str())
}

/// The full name of the tag keeper of `sha`.
pub fn tag_keeper(sha: &String) -> (r: String)
    ensures
        r@ == tag_keeper_name(sha@),
{
    String::from_str("refs/kept-tags/tag-").concat(sha.as_str())
}

/// The keeper to create for frontier reference `r` at commit `sha`, where
/// `annotated` tells whether `sha` is an annotated tag object (only asked of
/// tags).
pub fn plan_keeper(r: &Ref, sha: &String, annotated: bool) -> (k: Keeper)
    ensures
        is_tag_kept(*r, annotated) ==> (k matches Keeper::Tag(n) && n@ == tag_keeper_name(sha@)),
        !is_tag_kept(*r, annotated) ==> (k matches Keeper::Branch(n) && n@ == branch_keeper_name(
            sha@,
        )),
{
    if tag_kept(r, annotated) {
        Keeper::Tag(tag_keeper(sha))
    } else {
        Keeper::Branch(branch_keeper(sha))
    }
}

/// The planner's view of the frontier: each reference's commit, and
/// whether it is tag-kept.
pub open spec fn targets_of(frontier: Seq<Ref>, shas: Seq<String>, annotated: Seq<bool>) -> Seq<
    Target,
> {
    Seq::new(
        frontier.len(),
        |k: int| Target { sha: shas[k]@, tag_kept: is_tag_kept(frontier[k], annotated[k]) },
    )
}

/// Keeper synthesis for a run: one keeper for each frontier reference
/// (changed, then new), at its commit in `shas`; `annotated` tells for each
/// whether that commit is an annotated tag object. Removed references get
/// none.
pub fn plan_keepers(diff: &RefDiff, shas: &Vec<String>, annotated: &Vec<bool>) -> (r: Vec<Keeper>)
    requires
        shas@.len() == diff.frontier().len(),
        annotated@.len() == diff.frontier().len(),
    ensures
        r@.len() == diff.frontier().len(),
        forall|k: int|
            0 <= k < r@.len() ==> {
                let t = targets_of(diff.frontier(), shas@, annotated@)[k];
                &&& t.tag_kept ==> (#[trigger] r@[k] matches Keeper::Tag(n) && n@
                    == tag_keeper_name(t.sha))
                &&& !t.tag_kept ==> (r@[k] matches Keeper::Branch(n) && n@ == branch_keeper_name(
                    t.sha,
                ))
            },
{
    let n = shas.len();
    let mut out: Vec<Keeper> = Vec::new();
    let mut k: usize = 0;
    while k < n
        invariant
            n == diff.frontier().len(),
            shas@.len() == n,
            annotated@.len() == n,
            k <= n,
            out@.len() == k,
            forall|j: int|
                0 <= j < k ==> {
                    let t = targets_of(diff.frontier(), shas@, annotated@)[j];
                    &&& t.tag_kept ==> (#[trigger] out@[j] matches Keeper::Tag(n) && n@
                        == tag_keeper_name(t.sha))
                    &&& !t.tag_kept ==> (out@[j] matches Keeper::Branch(n) && n@
                        == branch_keeper_name(t.sha))
                },
        decreases n - k,
    {
        out.push(plan_keeper(diff.frontier_at(k), &shas[k], annotated[k]));
        k = k + 1;
    }
    out
}

/// What subsumption pruning asks of the backend next.
pub enum PruneStep {
    /// The branch keepers whose tip is an ancestor of this commit.
    AskIncluded(String),
    /// The branch keepers that contain this commit.
    AskIncluding(String),
    /// Pruning is over.
    Done,
}

/// Subsumption pruning as a sequence of steps: for each frontier target in
/// turn, descendant collapsing, then, unless the target is tag-kept, the
/// self-redundancy check. The caller answers each question that
/// `next_step` asks and deletes the branches that the answer yields.
pub struct Pruner {
    shas: Vec<String>,
    exempt: Vec<bool>,
    index: usize,
    checking_self: bool,
}

impl Pruner {
    /// The targets being pruned, in order.
    pub closed spec fn targets(&self) -> Seq<Target> {
        Seq::new(
            self.shas@.len(),
            |k: int| Target { sha: self.shas@[k]@, tag_kept: self.exempt@[k] },
        )
    }

    /// How many targets are done.
    pub closed spec fn position(&self) -> int {
        self.index as int
    }

    /// Whether the current target's collapsing is done and its own keeper's
    /// check is due.
    pub closed spec fn checking_self(&self) -> bool {
        self.checking_self
    }

    pub closed spec fn wf(&self) -> bool {
        &&& self.shas@.len() == self.exempt@.len()
        &&& self.index <= self.shas@.len()
        &&& self.checking_self ==> self.index < self.shas@.len() && !self.exempt@[self.index as int]
    }

    /// Pruning for the frontier of `diff`, with each reference's commit in
    /// `shas` and whether that commit is an annotated tag object in
    /// `annotated`.
    pub fn new(diff: &RefDiff, shas: &Vec<String>, annotated: &Vec<bool>) -> (p: Pruner)
        requires
            shas@.len() == diff.frontier().len(),
            annotated@.len() == diff.frontier().len(),
        ensures
            p.wf(),
            p.targets() == targets_of(diff.frontier(), shas@, annotated@),
            p.position() == 0,
            !p.checking_self(),
    {
        let n = shas.len();
        let mut own: Vec<String> = Vec::new();
        let mut exempt: Vec<bool> = Vec::new();
        let mut k: usize = 0;
        while k < n
            invariant
                n == diff.frontier().len(),
                shas@.len() == n,
                annotated@.len() == n,
                k <= n,
                own@.len() == k,
                exempt@.len() == k,
                forall|j: int| 0 <= j < k ==> (#[trigger] own@[j])@ == shas@[j]@,
                forall|j: int|
                    0 <= j < k ==> #[trigger] exempt@[j] == is_tag_kept(
                        diff.frontier()[j],
                        annotated@[j],
                    ),
            decreases n - k,
        {
            own.push(shas[k].clone());
            exempt.push(tag_kept(diff.frontier_at(k), annotated[k]));
            k = k + 1;
        }
        let p = Pruner { shas: own, exempt, index: 0, checking_self: false };
        assert(p.targets() =~= targets_of(diff.frontier(), shas@, annotated@));
        p
    }

    /// The question to answer next.
    pub fn next_step(&self) -> (s: PruneStep)
        requires
            self.wf(),
        ensures
            self.position() == self.targets().len() ==> s is Done,
            self.position() < self.targets().len() && !self.checking_self() ==> (s matches PruneStep::AskIncluded(sha) && sha@ == self.targets()[self.position()].sha),
            self.position() < self.targets().len() && self.checking_self() ==> (s matches PruneStep::AskIncluding(sha) && sha@ == self.targets()[self.position()].sha),
    {
        if self.index == self.shas.len() {
            PruneStep::Done
        } else if self.checking_self {
            PruneStep::AskIncluding(self.shas[self.index].clone())
        } else {
            PruneStep::AskIncluded(self.shas[self.index].clone())
        }
    }

    /// Take the answer to `AskIncluded`: the branch keepers whose tip is an
    /// ancestor of the current target's commit. Returns the branches to
    /// delete, all of them but the target's own keeper, and moves on to the
    /// self-redundancy check, or to the next target where this one is
    /// tag-kept.
    pub fn on_included(&mut self, included: &Vec<String>) -> (r: Vec<String>)
        requires
            old(self).wf(),
            old(self).position() < old(self).targets().len(),
            !old(self).checking_self(),
        ensures
            final(self).wf(),
            final(self).targets() == old(self).targets(),
            texts_of(r@) == texts_of(included@).filter(
                |n: Seq<char>| n != branch_keeper_name(old(self).targets()[old(self).position()].sha),
            ),
            old(self).targets()[old(self).position()].tag_kept ==> final(self).position()
                == old(self).position() + 1 && !final(self).checking_self(),
            !old(self).targets()[old(self).position()].tag_kept ==> final(self).position()
                == old(self).position() && final(self).checking_self(),
    {
        let r = collapse_deletions(&self.shas[self.index], included);
        let n = self.shas.len();
        if self.exempt[self.index] {
            assert(self.index < n);
            self.index = self.index + 1;
        } else {
            self.checking_self = true;
        }
        r
    }

    /// Take the answer to `AskIncluding`: how many branch keepers contain
    /// the current target's commit. Returns the target's own keeper where it
    /// is redundant, that is where more than one does, and moves on to the
    /// next target.
    pub fn on_including(&mut self, including_count: usize) -> (r: Option<String>)
        requires
            old(self).wf(),
            old(self).checking_self(),
        ensures
            final(self).wf(),
            final(self).targets() == old(self).targets(),
            final(self).position() == old(self).position() + 1,
            !final(self).checking_self(),
            including_count > 1 ==> (r matches Some(n) && n@ == branch_keeper_name(
                old(self).targets()[old(self).position()].sha,
            )),
            including_count <= 1 ==> r is None,
    {
        let sha = &self.shas[self.index];
        let n = self.shas.len();
        assert(self.index < n);
        let r = if including_count > 1 {
            Some(branch_keeper(sha))
        } else {
            None
        };
        self.index = self.index + 1;
        self.checking_self = false;
        r
    }
}

/// The branches to delete because commit `sha` now keeps them: every branch
/// of `included` (the keepers whose tip is an ancestor of `sha`) but the
/// branch keeper of `sha` itself, in the order given.
pub fn collapse_deletions(sha: &String, included: &Vec<String>) -> (r: Vec<String>)
    ensures
        texts_of(r@) == texts_of(included@).filter(
            |n: Seq<char>| n != branch_keeper_name(sha@),
        ),
{
    let keeper = branch_keeper(sha);
    let ghost pred = |n: Seq<char>| n != branch_keeper_name(sha@);
    let mut out: Vec<String> = Vec::new();
    let mut i: usize = 0;
    while i < included.len()
        invariant
            i <= included@.len(),
            keeper@ == branch_keeper_name(sha@),
            pred == (|n: Seq<char>| n != branch_keeper_name(sha@)),
            texts_of(out@) == texts_of(included@).take(i as int).filter(pred),
        decreases included@.len() - i,
    {
        let ghost before = texts_of(included@).take(i as int);
        assert(texts_of(included@).take(i as int + 1) =~= before.push(included@[i as int]@));
        proof {
            before.lemma_filter_push(included@[i as int]@, pred);
        }
        let ghost out_before = out@;
        if !(included[i] == keeper) {
            out.push(included[i].clone());
            assert(texts_of(out@) =~= texts_of(out_before).push(included@[i as int]@));
        }
        i = i + 1;
    }
    assert(texts_of(included@).take(included@.len() as int) =~= texts_of(included@));
    out
}

/// `anc(a, b)` reads "commit `a` is an ancestor of commit `b`, or `b`
/// itself". A commit graph's ancestry is a partial order.
pub open spec fn is_ancestry(anc: spec_fn(Seq<char>, Seq<char>) -> bool) -> bool {
    &&& forall|a: Seq<char>| #[trigger] anc(a, a)
    &&& forall|a: Seq<char>, b: Seq<char>, c: Seq<char>|
        #[trigger] anc(a, b) && #[trigger] anc(b, c) ==> anc(a, c)
    &&& forall|a: Seq<char>, b: Seq<char>| #[trigger] anc(a, b) && anc(b, a) ==> a == b
}

/// The keepers of a repository, by the commits they keep: the tips of the
/// branch-style keepers, and the objects of the tag-style keepers. A keeper's
/// name is a function of its commit, so the commit stands for the keeper.
pub struct KeeperSet {
    pub branches: Set<Seq<char>>,
    pub tags: Set<Seq<char>>,
}

/// A frontier reference as the planner sees it: its commit, and whether it
/// is kept by a tag-style keeper.
pub struct Target {
    pub sha: Seq<char>,
    pub tag_kept: bool,
}

/// The keepers after the keeper of `t` is created; creating one that exists
/// changes nothing.
pub open spec fn keep_one(k: KeeperSet, t: Target) -> KeeperSet {
    if t.tag_kept {
        KeeperSet { tags: k.tags.insert(t.sha), ..k }
    } else {
        KeeperSet { branches: k.branches.insert(t.sha), ..k }
    }
}

/// Keeper synthesis over a frontier, in order.
pub open spec fn synthesize(k: KeeperSet, frontier: Seq<Target>) -> KeeperSet
    decreases frontier.len(),
{
    if frontier.len() == 0 {
        k
    } else {
        synthesize(keep_one(k, frontier[0]), frontier.drop_first())
    }
}

/// The branches of `s` whose tip is an ancestor of `sha`.
pub open spec fn included(
    s: Set<Seq<char>>,
    sha: Seq<char>,
    anc: spec_fn(Seq<char>, Seq<char>) -> bool,
) -> Set<Seq<char>> {
    s.filter(|t: Seq<char>| anc(t, sha))
}

/// The branches of `s` that contain `sha`.
pub open spec fn including(
    s: Set<Seq<char>>,
    sha: Seq<char>,
    anc: spec_fn(Seq<char>, Seq<char>) -> bool,
) -> Set<Seq<char>> {
    s.filter(|t: Seq<char>| anc(sha, t))
}

/// The branches left after those included by `sha` are deleted, but `sha`'s
/// own keeper.
pub open spec fn collapse(
    s: Set<Seq<char>>,
    sha: Seq<char>,
    anc: spec_fn(Seq<char>, Seq<char>) -> bool,
) -> Set<Seq<char>> {
    s.filter(|t: Seq<char>| !(anc(t, sha) && t != sha))
}

/// One pruning step for frontier target `t`: descendant collapsing, then,
/// unless `t` is tag-kept, the deletion of its own keeper where more than one
/// branch contains its commit.
pub open spec fn prune_one(
    k: KeeperSet,
    t: Target,
    anc: spec_fn(Seq<char>, Seq<char>) -> bool,
) -> KeeperSet {
    let c = collapse(k.branches, t.sha, anc);
    KeeperSet {
        branches: if !t.tag_kept && including(c, t.sha, anc).len() > 1 {
            c.remove(t.sha)
        } else {
            c
        },
        tags: k.tags,
    }
}

/// Subsumption pruning over a frontier, in order.
pub open spec fn prune(
    k: KeeperSet,
    frontier: Seq<Target>,
    anc: spec_fn(Seq<char>, Seq<char>) -> bool,
) -> KeeperSet
    decreases frontier.len(),
{
    if frontier.len() == 0 {
        k
    } else {
        prune(prune_one(k, frontier[0], anc), frontier.drop_first(), anc)
    }
}

/// Both passes of the planner over a frontier.
pub open spec fn plan_run(
    k: KeeperSet,
    frontier: Seq<Target>,
    anc: spec_fn(Seq<char>, Seq<char>) -> bool,
) -> KeeperSet {
    prune(synthesize(k, frontier), frontier, anc)
}

/// No branch of `s` is an ancestor of another.
pub open spec fn antichain(s: Set<Seq<char>>, anc: spec_fn(Seq<char>, Seq<char>) -> bool) -> bool {
    forall|a: Seq<char>, b: Seq<char>|
        s.contains(a) && s.contains(b) && a != b ==> !#[trigger] anc(a, b)
}

/// Commit `c` is reachable from some keeper of `k`.
pub open spec fn is_kept(
    k: KeeperSet,
    c: Seq<char>,
    anc: spec_fn(Seq<char>, Seq<char>) -> bool,
) -> bool {
    exists|t: Seq<char>| (k.branches.contains(t) || k.tags.contains(t)) && #[trigger] anc(c, t)
}

/// Some target of `frontier` is at commit `s`.
pub open spec fn mentions(frontier: Seq<Target>, s: Seq<char>) -> bool {
    exists|i: int| 0 <= i < frontier.len() && (#[trigger] frontier[i]).sha == s
}

proof fn lemma_synthesize_members(k: KeeperSet, frontier: Seq<Target>)
    requires
        k.branches.finite(),
    ensures
        synthesize(k, frontier).branches.finite(),
        forall|s: Seq<char>|
            #[trigger] synthesize(k, frontier).branches.contains(s) <==> (k.branches.contains(s)
                || exists|i: int|
                0 <= i < frontier.len() && !frontier[i].tag_kept && #[trigger] frontier[i].sha
                    == s),
        forall|s: Seq<char>|
            #[trigger] synthesize(k, frontier).tags.contains(s) <==> (k.tags.contains(s)
                || exists|i: int|
                0 <= i < frontier.len() && frontier[i].tag_kept && #[trigger] frontier[i].sha
                    == s),
    decreases frontier.len(),
{
    if frontier.len() > 0 {
        let rest = frontier.drop_first();
        lemma_synthesize_members(keep_one(k, frontier[0]), rest);
        assert forall|s: Seq<char>|
            (k.branches.contains(s) || exists|i: int|
                0 <= i < frontier.len() && !frontier[i].tag_kept && #[trigger] frontier[i].sha
                    == s) implies #[trigger] synthesize(k, frontier).branches.contains(s) by {
            if !k.branches.contains(s) {
                let i = choose|i: int|
                    0 <= i < frontier.len() && !frontier[i].tag_kept && #[trigger] frontier[i].sha
                        == s;
                if i > 0 {
                    assert(rest[i - 1] == frontier[i]);
                }
            }
        }
        assert forall|s: Seq<char>|
            (k.tags.contains(s) || exists|i: int|
                0 <= i < frontier.len() && frontier[i].tag_kept && #[trigger] frontier[i].sha
                    == s) implies #[trigger] synthesize(k, frontier).tags.contains(s) by {
            if !k.tags.contains(s) {
                let i = choose|i: int|
                    0 <= i < frontier.len() && frontier[i].tag_kept && #[trigger] frontier[i].sha
                        == s;
                if i > 0 {
                    assert(rest[i - 1] == frontier[i]);
                }
            }
        }
        assert forall|s: Seq<char>|
            #[trigger] synthesize(k, frontier).branches.contains(s) ==> (k.branches.contains(s)
                || exists|i: int|
                0 <= i < frontier.len() && !frontier[i].tag_kept && #[trigger] frontier[i].sha
                    == s) by {
            if synthesize(k, frontier).branches.contains(s) && !k.branches.contains(s) {
                if !(!frontier[0].tag_kept && frontier[0].sha == s) {
                    let j = choose|j: int|
                        0 <= j < rest.len() && !rest[j].tag_kept && #[trigger] rest[j].sha == s;
                    assert(frontier[j + 1] == rest[j]);
                }
            }
        }
        assert forall|s: Seq<char>|
            #[trigger] synthesize(k, frontier).tags.contains(s) ==> (k.tags.contains(s)
                || exists|i: int|
                0 <= i < frontier.len() && frontier[i].tag_kept && #[trigger] frontier[i].sha
                    == s) by {
            if synthesize(k, frontier).tags.contains(s) && !k.tags.contains(s) {
                if !(frontier[0].tag_kept && frontier[0].sha == s) {
                    let j = choose|j: int|
                        0 <= j < rest.len() && rest[j].tag_kept && #[trigger] rest[j].sha == s;
                    assert(frontier[j + 1] == rest[j]);
                }
            }
        }
    }
}

/// A finite set with more than one element holds one other than `x`.
proof fn lemma_other_member(s: Set<Seq<char>>, x: Seq<char>)
    requires
        s.finite(),
        s.len() > 1,
    ensures
        exists|v: Seq<char>| s.contains(v) && v != x,
{
    if forall|v: Seq<char>| s.contains(v) ==> v == x {
        assert(s.subset_of(Set::empty().insert(x)));
        lemma_len_subset(s, Set::empty().insert(x));
    }
}

/// A finite set that holds two distinct elements has more than one.
proof fn lemma_two_members(s: Set<Seq<char>>, x: Seq<char>, y: Seq<char>)
    requires
        s.finite(),
        s.contains(x),
        s.contains(y),
        x != y,
    ensures
        s.len() > 1,
{
    let pair = Set::empty().insert(x).insert(y);
    assert(pair.len() == 2);
    lemma_len_subset(pair, s);
}

proof fn lemma_prune_one_finite(
    k: KeeperSet,
    t: Target,
    anc: spec_fn(Seq<char>, Seq<char>) -> bool,
)
    requires
        k.branches.finite(),
    ensures
        collapse(k.branches, t.sha, anc).finite(),
        including(collapse(k.branches, t.sha, anc), t.sha, anc).finite(),
        prune_one(k, t, anc).branches.finite(),
        prune_one(k, t, anc).branches.subset_of(collapse(k.branches, t.sha, anc)),
        collapse(k.branches, t.sha, anc).subset_of(k.branches),
        prune_one(k, t, anc).tags == k.tags,
{
    k.branches.lemma_len_filter(|s: Seq<char>| !(anc(s, t.sha) && s != t.sha));
    let c = collapse(k.branches, t.sha, anc);
    c.lemma_len_filter(|s: Seq<char>| anc(t.sha, s));
}

proof fn lemma_prune_antichain(
    k: KeeperSet,
    frontier: Seq<Target>,
    anc: spec_fn(Seq<char>, Seq<char>) -> bool,
)
    requires
        is_ancestry(anc),
        k.branches.finite(),
        forall|a: Seq<char>, b: Seq<char>|
            k.branches.contains(a) && k.branches.contains(b) && a != b && #[trigger] anc(a, b)
                ==> mentions(frontier, a) || mentions(frontier, b),
        forall|i: int|
            0 <= i < frontier.len() && (#[trigger] frontier[i]).tag_kept
                ==> !k.branches.contains(frontier[i].sha),
    ensures
        antichain(prune(k, frontier, anc).branches, anc),
    decreases frontier.len(),
{
    if frontier.len() > 0 {
        let t = frontier[0];
        let rest = frontier.drop_first();
        let next = prune_one(k, t, anc);
        let c = collapse(k.branches, t.sha, anc);
        lemma_prune_one_finite(k, t, anc);
        assert forall|a: Seq<char>, b: Seq<char>|
            next.branches.contains(a) && next.branches.contains(b) && a != b && #[trigger] anc(
                a,
                b,
            ) implies mentions(rest, a) || mentions(rest, b) by {
            assert(c.contains(a) && c.contains(b));
            if !mentions(rest, a) && !mentions(rest, b) {
                assert(mentions(frontier, a) || mentions(frontier, b));
                assert forall|s: Seq<char>|
                    mentions(frontier, s) && !mentions(rest, s) implies s == t.sha by {
                    let i = choose|i: int| 0 <= i < frontier.len() && (#[trigger] frontier[i]).sha == s;
                    if i > 0 {
                        assert(rest[i - 1] == frontier[i]);
                    }
                }
                if b == t.sha {
                    assert(!(anc(a, t.sha) && a != t.sha));
                } else {
                    assert(a == t.sha);
                    if t.tag_kept {
                        assert(frontier[0].tag_kept);
                    } else {
                        let inc = including(c, t.sha, anc);
                        assert(inc.contains(t.sha));
                        assert(inc.contains(b));
                        lemma_two_members(inc, t.sha, b);
                    }
                }
            }
        }
        assert forall|i: int|
            0 <= i < rest.len() && (#[trigger] rest[i]).tag_kept implies !next.branches.contains(
            rest[i].sha,
        ) by {
            assert(rest[i] == frontier[i + 1]);
        }
        lemma_prune_antichain(next, rest, anc);
    }
}

/// The surviving branch keepers form an antichain: starting from branch
/// keepers none of which is an ancestor of another, after keeper synthesis
/// and subsumption pruning over a frontier no surviving branch keeper is an
/// ancestor of another. A tag-kept target's commit is an annotated tag
/// object, never the tip of a branch keeper.
pub proof fn lemma_antichain(
    k: KeeperSet,
    frontier: Seq<Target>,
    anc: spec_fn(Seq<char>, Seq<char>) -> bool,
)
    requires
        is_ancestry(anc),
        k.branches.finite(),
        antichain(k.branches, anc),
        forall|i: int|
            0 <= i < frontier.len() && (#[trigger] frontier[i]).tag_kept ==> !k.branches.contains(
                frontier[i].sha,
            ) && forall|j: int|
                0 <= j < frontier.len() && !(#[trigger] frontier[j]).tag_kept ==> frontier[j].sha
                    != frontier[i].sha,
    ensures
        antichain(plan_run(k, frontier, anc).branches, anc),
{
    lemma_synthesize_members(k, frontier);
    let s = synthesize(k, frontier);
    assert forall|a: Seq<char>, b: Seq<char>|
        s.branches.contains(a) && s.branches.contains(b) && a != b && #[trigger] anc(a, b) implies mentions(
        frontier,
        a,
    ) || mentions(frontier, b) by {
        if !k.branches.contains(a) {
            let i = choose|i: int|
                0 <= i < frontier.len() && !frontier[i].tag_kept && #[trigger] frontier[i].sha == a;
            assert(frontier[i].sha == a);
        } else if !k.branches.contains(b) {
            let i = choose|i: int|
                0 <= i < frontier.len() && !frontier[i].tag_kept && #[trigger] frontier[i].sha == b;
            assert(frontier[i].sha == b);
        }
    }
    assert forall|i: int|
        0 <= i < frontier.len() && (#[trigger] frontier[i]).tag_kept implies !s.branches.contains(
        frontier[i].sha,
    ) by {
        if s.branches.contains(frontier[i].sha) {
            let j = choose|j: int|
                0 <= j < frontier.len() && !frontier[j].tag_kept && #[trigger] frontier[j].sha
                    == frontier[i].sha;
            assert(!frontier[j].tag_kept);
        }
    }
    lemma_prune_antichain(s, frontier, anc);
}

proof fn lemma_prune_one_keeps(
    k: KeeperSet,
    t: Target,
    anc: spec_fn(Seq<char>, Seq<char>) -> bool,
    c: Seq<char>,
)
    requires
        is_ancestry(anc),
        k.branches.finite(),
        is_kept(k, c, anc),
        is_kept(k, t.sha, anc),
        t.tag_kept ==> k.tags.contains(t.sha),
    ensures
        is_kept(prune_one(k, t, anc), c, anc),
{
    let next = prune_one(k, t, anc);
    let cs = collapse(k.branches, t.sha, anc);
    let inc = including(cs, t.sha, anc);
    lemma_prune_one_finite(k, t, anc);
    let w = choose|w: Seq<char>| (k.branches.contains(w) || k.tags.contains(w)) && #[trigger] anc(c, w);
    if k.tags.contains(w) || next.branches.contains(w) {
        assert(anc(c, w));
    } else if !cs.contains(w) {
        // `w` was collapsed into `t.sha`: whatever keeps `t.sha` keeps `c`.
        assert(anc(w, t.sha));
        assert(anc(c, t.sha));
        if t.tag_kept {
            assert(next.tags.contains(t.sha));
        } else {
            let u = choose|u: Seq<char>|
                (k.branches.contains(u) || k.tags.contains(u)) && #[trigger] anc(t.sha, u);
            assert(anc(c, u));
            if k.tags.contains(u) || next.branches.contains(u) {
            } else {
                if !cs.contains(u) {
                    assert(anc(u, t.sha));
                }
                assert(u == t.sha);
                lemma_other_member(inc, t.sha);
                let v = choose|v: Seq<char>| inc.contains(v) && v != t.sha;
                assert(next.branches.contains(v));
                assert(anc(c, v));
            }
        }
    } else {
        // `w` is `t.sha`'s own keeper, deleted as redundant.
        assert(w == t.sha);
        lemma_other_member(inc, t.sha);
        let v = choose|v: Seq<char>| inc.contains(v) && v != t.sha;
        assert(next.branches.contains(v));
        assert(anc(c, v));
    }
}

proof fn lemma_prune_keeps(
    k: KeeperSet,
    frontier: Seq<Target>,
    anc: spec_fn(Seq<char>, Seq<char>) -> bool,
    c: Seq<char>,
)
    requires
        is_ancestry(anc),
        k.branches.finite(),
        is_kept(k, c, anc),
        forall|i: int| 0 <= i < frontier.len() ==> is_kept(k, (#[trigger] frontier[i]).sha, anc),
        forall|i: int|
            0 <= i < frontier.len() && (#[trigger] frontier[i]).tag_kept ==> k.tags.contains(
                frontier[i].sha,
            ),
    ensures
        is_kept(prune(k, frontier, anc), c, anc),
    decreases frontier.len(),
{
    if frontier.len() > 0 {
        let t = frontier[0];
        let rest = frontier.drop_first();
        let next = prune_one(k, t, anc);
        lemma_prune_one_finite(k, t, anc);
        lemma_prune_one_keeps(k, t, anc, c);
        assert forall|i: int| 0 <= i < rest.len() implies is_kept(next, (#[trigger] rest[i]).sha, anc) by {
            assert(rest[i] == frontier[i + 1]);
            lemma_prune_one_keeps(k, t, anc, rest[i].sha);
        }
        assert forall|i: int|
            0 <= i < rest.len() && (#[trigger] rest[i]).tag_kept implies next.tags.contains(
            rest[i].sha,
        ) by {
            assert(rest[i] == frontier[i + 1]);
        }
        lemma_prune_keeps(next, rest, anc, c);
    }
}

/// Reachability is preserved: a commit that some keeper kept before the run,
/// or the commit of a frontier reference (which the ledger now holds in an
/// open row), is reachable from a surviving keeper after both passes.
pub proof fn lemma_reachability(
    k: KeeperSet,
    frontier: Seq<Target>,
    anc: spec_fn(Seq<char>, Seq<char>) -> bool,
    c: Seq<char>,
)
    requires
        is_ancestry(anc),
        k.branches.finite(),
        is_kept(k, c, anc) || mentions(frontier, c),
    ensures
        is_kept(plan_run(k, frontier, anc), c, anc),
{
    lemma_synthesize_members(k, frontier);
    let s = synthesize(k, frontier);
    assert forall|x: Seq<char>| is_kept(k, x, anc) implies is_kept(s, x, anc) by {
        let w = choose|w: Seq<char>|
            (k.branches.contains(w) || k.tags.contains(w)) && #[trigger] anc(x, w);
        assert(s.branches.contains(w) || s.tags.contains(w));
    }
    assert forall|i: int| 0 <= i < frontier.len() implies is_kept(s, (#[trigger] frontier[i]).sha, anc) by {
        let x = frontier[i].sha;
        assert(anc(x, x));
        if frontier[i].tag_kept {
            assert(s.tags.contains(x));
        } else {
            assert(s.branches.contains(x));
        }
    }
    assert forall|i: int|
        0 <= i < frontier.len() && (#[trigger] frontier[i]).tag_kept implies s.tags.contains(
        frontier[i].sha,
    ) by {}
    if mentions(frontier, c) {
        let i = choose|i: int| 0 <= i < frontier.len() && (#[trigger] frontier[i]).sha == c;
        assert(is_kept(s, frontier[i].sha, anc));
    }
    lemma_prune_keeps(s, frontier, anc, c);
}

/// Keepers are deterministic: the keeper name of a commit is a function of
/// the commit alone, distinct commits get distinct names, and the two styles
/// never share a name. Synthesizing the keepers of a frontier a second time
/// creates nothing new, and a run whose frontier is empty changes no keeper.
pub proof fn lemma_keeper_determinism(
    a: Seq<char>,
    b: Seq<char>,
    k: KeeperSet,
    frontier: Seq<Target>,
    anc: spec_fn(Seq<char>, Seq<char>) -> bool,
)
    requires
        k.branches.finite(),
    ensures
        (branch_keeper_name(a) == branch_keeper_name(b)) == (a == b),
        (tag_keeper_name(a) == tag_keeper_name(b)) == (a == b),
        branch_keeper_name(a) != tag_keeper_name(b),
        synthesize(synthesize(k, frontier), frontier) == synthesize(k, frontier),
        plan_run(k, Seq::empty(), anc) == k,
{
    reveal_strlit("keep-");
    reveal_strlit("refs/kept-tags/tag-");
    if branch_keeper_name(a) == branch_keeper_name(b) {
        assert(a =~= branch_keeper_name(a).subrange(5, branch_keeper_name(a).len() as int));
        assert(b =~= branch_keeper_name(b).subrange(5, branch_keeper_name(b).len() as int));
    }
    if tag_keeper_name(a) == tag_keeper_name(b) {
        assert(a =~= tag_keeper_name(a).subrange(19, tag_keeper_name(a).len() as int));
        assert(b =~= tag_keeper_name(b).subrange(19, tag_keeper_name(b).len() as int));
    }
    assert(branch_keeper_name(a)[0] != tag_keeper_name(b)[0]);
    lemma_synthesize_members(k, frontier);
    let s = synthesize(k, frontier);
    lemma_synthesize_members(s, frontier);
    assert(synthesize(s, frontier).branches =~= s.branches);
    assert(synthesize(s, frontier).tags =~= s.tags);
}

} // verus!
