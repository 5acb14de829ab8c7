use vstd::prelude::*;

use crate::error::Error;

verus! {

/// The namespace under which the remote's branches are seen locally.
pub open spec fn origin_prefix() -> Seq<char> {
    seq!['o', 'r', 'i', 'g', 'i', 'n', '/']
}

/// Whether `s` holds a `/` anywhere.
pub open spec fn has_slash(s: Seq<char>) -> bool {
    exists|i: int| 0 <= i < s.len() && s[i] == '/'
}

/// Whether `s` starts with `origin/`.
pub open spec fn starts_with_origin(s: Seq<char>) -> bool {
    s.len() >= origin_prefix().len() && s.subrange(0, origin_prefix().len() as int)
        == origin_prefix()
}

/// A tracked reference: a branch of the remote, or a tag.
#[derive(Debug, Clone, PartialEq, Eq, Hash)]
pub struct Ref {
    pub name: String,
    pub tag: bool,
}

impl Ref {
    /// The fully-qualified name: `origin/<name>` for a branch, the bare name
    /// for a tag.
    pub open spec fn full_name(&self) -> Seq<char> {
        if self.tag {
            self.name@
        } else {
            origin_prefix() + self.name@
        }
    }

    /// Parse a remote branch reference of the form `origin/<branch>`.
    pub fn parse_remote_ref(refname: &str) -> (r: Result<Ref, Error>)
        ensures
            !has_slash(refname@) ==> r is Err && r->Err_0 is InvalidRemoteRef,
            has_slash(refname@) && !starts_with_origin(refname@) ==> r is Err
                && r->Err_0 is InvalidRemote,
            has_slash(refname@) && starts_with_origin(refname@) ==> r is Ok
                && r->Ok_0.name@ == refname@.subrange(
                origin_prefix().len() as int,
                refname@.len() as int,
            ) && !r->Ok_0.tag,
    {
        let len = refname.unicode_len();
        let mut i: usize = 0;
        let mut found = false;
        while i < len
            invariant
                len == refname@.len(),
                i <= len,
                found <==> exists|j: int| 0 <= j < i && refname@[j] == '/',
            decreases len - i,
        {
            if refname.get_char(i) == '/' {
                found = true;
            }
            i = i + 1;
        }
        if !found {
            return Err(Error::InvalidRemoteRef);
        }
        let prefix = ['o', 'r', 'i', 'g', 'i', 'n', '/'];
        if len < 7 {
            return Err(Error::InvalidRemote);
        }
        let mut k: usize = 0;
        while k < 7
            invariant
                len == refname@.len(),
                len >= 7,
                k <= 7,
                has_slash(refname@),
                prefix@ == origin_prefix(),
                forall|j: int| 0 <= j < k ==> refname@[j] == origin_prefix()[j],
            decreases 7 - k,
        {
            if refname.get_char(k) != prefix[k] {
                assert(refname@.subrange(0, 7)[k as int] != origin_prefix()[k as int]);
                return Err(Error::InvalidRemote);
            }
            k = k + 1;
        }
        assert(refname@.subrange(0, 7) =~= origin_prefix());
        let name = refname.substring_char(7, len).to_owned();
        Ok(Ref { name, tag: false })
    }

    /// The fully-qualified name of this reference.
    pub fn fullname(&self) -> (r: String)
        ensures
            r@ == self.full_name(),
    {
        if self.tag {
            self.name.clone()
        } else {
            let prefix = String::from_str("origin/");
            proof {
                reveal_strlit("origin/");
            }
            assert("origin/"@ =~= origin_prefix());
            prefix.concat(self.name.as_str())
        }
    }
}

/// The outcome of one fetch: references seen for the first time, references
/// that now point at another commit, and references that are gone.
pub struct RefDiff {
    pub new: Vec<Ref>,
    pub changed: Vec<Ref>,
    pub removed: Vec<Ref>,
}

/// A reference as one listing of the remote shows it, with its commit.
pub struct Observed {
    pub r: Ref,
    pub sha: String,
}

/// The identity of a reference: its name and kind.
pub open spec fn key_of(r: Ref) -> (Seq<char>, bool) {
    (r.name@, r.tag)
}

/// The identities of `refs`, in order.
pub open spec fn keys_of(refs: Seq<Ref>) -> Seq<(Seq<char>, bool)> {
    refs.map_values(|r: Ref| key_of(r))
}

/// The identities of the references of `obs`, in order.
pub open spec fn observed_keys(obs: Seq<Observed>) -> Seq<(Seq<char>, bool)> {
    obs.map_values(|o: Observed| key_of(o.r))
}

/// The commit at which `obs` first lists a reference of identity `key`.
pub open spec fn lookup(obs: Seq<Observed>, key: (Seq<char>, bool)) -> Option<Seq<char>>
    decreases obs.len(),
{
    if obs.len() == 0 {
        None
    } else if key_of(obs[0].r) == key {
        Some(obs[0].sha@)
    } else {
        lookup(obs.drop_first(), key)
    }
}

/// Listed now, not before.
pub open spec fn is_new_in(previous: Seq<Observed>, o: Observed) -> bool {
    lookup(previous, key_of(o.r)) is None
}

/// Listed before at another commit.
pub open spec fn is_changed_in(previous: Seq<Observed>, o: Observed) -> bool {
    lookup(previous, key_of(o.r)) matches Some(s) && s != o.sha@
}

impl Ref {
    /// A reference with the same name and kind.
    pub fn copy(&self) -> (r: Ref)
        ensures
            key_of(r) == key_of(*self),
    {
        Ref { name: self.name.clone(), tag: self.tag }
    }
}

/// Whether `s` starts with `p`.
pub open spec fn has_prefix(s: Seq<char>, p: Seq<char>) -> bool {
    p.len() <= s.len() && s.take(p.len() as int) == p
}

/// Whether `s` starts with `p`.
pub fn starts_with(s: &str, p: &str) -> (b: bool)
    ensures
        b == has_prefix(s@, p@),
{
    let n = p.unicode_len();
    if n > s.unicode_len() {
        return false;
    }
    let mut k: usize = 0;
    while k < n
        invariant
            n == p@.len(),
            n <= s@.len(),
            k <= n,
            forall|j: int| 0 <= j < k ==> s@[j] == p@[j],
        decreases n - k,
    {
        if s.get_char(k) != p.get_char(k) {
            assert(s@.take(n as int)[k as int] != p@[k as int]);
            return false;
        }
        k = k + 1;
    }
    assert(s@.take(n as int) =~= p@);
    true
}

/// Where `s` holds its first space, if anywhere.
pub open spec fn is_first_space(s: Seq<char>, i: int) -> bool {
    0 <= i < s.len() && s[i] == ' ' && forall|j: int| 0 <= j < i ==> s[j] != ' '
}

/// Read one line `<object> <refname>` of a listing of the repository's
/// references. Tags (`refs/tags/<name>`) and the remote's branches
/// (`refs/remotes/origin/<name>`) are tracked; the remote's `HEAD` alias and
/// every other reference are not (`Ok(None)`), nor is a line without a
/// space. A branch of another remote is an error, as in `parse_remote_ref`.
pub fn observed_from_line(line: &str) -> (res: Result<Option<Observed>, Error>)
    ensures
        (forall|i: int| 0 <= i < line@.len() ==> line@[i] != ' ') ==> res matches Ok(None),
        forall|i: int|
            #![trigger is_first_space(line@, i)]
            is_first_space(line@, i) ==> {
                let sha = line@.take(i);
                let refname = line@.skip(i + 1);
                let remote = refname.skip("refs/remotes/"@.len() as int);
                &&& has_prefix(refname, "refs/tags/"@) ==> (res matches Ok(Some(o))
                    && o.r.name@ == refname.skip("refs/tags/"@.len() as int) && o.r.tag && o.sha@
                    == sha)
                &&& !has_prefix(refname, "refs/tags/"@) && has_prefix(refname, "refs/remotes/"@)
                    ==> {
                    &&& remote == "origin/HEAD"@ ==> (res matches Ok(None))
                    &&& remote != "origin/HEAD"@ && !has_slash(remote) ==> (res matches Err(e)
                        && e is InvalidRemoteRef)
                    &&& remote != "origin/HEAD"@ && has_slash(remote) && !starts_with_origin(
                        remote,
                    ) ==> (res matches Err(e) && e is InvalidRemote)
                    &&& remote != "origin/HEAD"@ && has_slash(remote) && starts_with_origin(
                        remote,
                    ) ==> (res matches Ok(Some(o)) && o.r.name@ == remote.skip(
                        origin_prefix().len() as int,
                    ) && !o.r.tag && o.sha@ == sha)
                }
                &&& !has_prefix(refname, "refs/tags/"@) && !has_prefix(refname, "refs/remotes/"@)
                    ==> (res matches Ok(None))
            },
{
    let len = line.unicode_len();
    let mut i: usize = 0;
    let mut found = false;
    while i < len && !found
        invariant
            len == line@.len(),
            i <= len,
            forall|j: int| 0 <= j < i ==> line@[j] != ' ',
            found ==> i < len && line@[i as int] == ' ',
        decreases len - i + (if found { 0int } else { 1int }),
    {
        if line.get_char(i) == ' ' {
            found = true;
        } else {
            i = i + 1;
        }
    }
    if !found {
        return Ok(None);
    }
    assert(is_first_space(line@, i as int));
    assert forall|j: int| is_first_space(line@, j) implies j == i by {
        if j < i {
        } else if j > i {
            assert(line@[i as int] == ' ');
        }
    }
    let sha = line.substring_char(0, i).to_owned();
    let refname = line.substring_char(i + 1, len);
    assert(sha@ =~= line@.take(i as int));
    assert(refname@ =~= line@.skip(i as int + 1));
    if starts_with(refname, "refs/tags/") {
        let name = refname.substring_char("refs/tags/".unicode_len(), refname.unicode_len());
        assert(name@ =~= refname@.skip("refs/tags/"@.len() as int));
        return Ok(Some(Observed { r: Ref { name: name.to_owned(), tag: true }, sha }));
    }
    if !starts_with(refname, "refs/remotes/") {
        return Ok(None);
    }
    let remote = refname.substring_char("refs/remotes/".unicode_len(), refname.unicode_len());
    assert(remote@ =~= refname@.skip("refs/remotes/"@.len() as int));
    if starts_with(remote, "origin/HEAD") && remote.unicode_len() == "origin/HEAD".unicode_len() {
        assert(remote@ =~= "origin/HEAD"@);
        return Ok(None);
    }
    assert(remote@.take(remote@.len() as int) =~= remote@);
    assert(remote@ != "origin/HEAD"@);
    match Ref::parse_remote_ref(remote) {
        Ok(r) => Ok(Some(Observed { r, sha })),
        Err(e) => Err(e),
    }
}

fn find_listed(obs: &Vec<Observed>, r: &Ref) -> (res: Option<usize>)
    ensures
        res is None ==> lookup(obs@, key_of(*r)) is None,
        res matches Some(i) ==> i < obs@.len() && lookup(obs@, key_of(*r)) == Some(
            obs@[i as int].sha@,
        ),
{
    let mut i: usize = 0;
    assert(obs@.subrange(0, obs@.len() as int) =~= obs@);
    while i < obs.len()
        invariant
            i <= obs@.len(),
            lookup(obs@, key_of(*r)) == lookup(obs@.subrange(i as int, obs@.len() as int), key_of(*r)),
        decreases obs@.len() - i,
    {
        assert(obs@.subrange(i as int, obs@.len() as int).drop_first() =~= obs@.subrange(
            i as int + 1,
            obs@.len() as int,
        ));
        if obs[i].r.tag == r.tag && obs[i].r.name == r.name {
            return Some(i);
        }
        i = i + 1;
    }
    None
}

/// Classify two listings of the remote's references by name and kind: the
/// references of `current` that `previous` lacks are new, those it lists at
/// another commit are changed, and those of `previous` that `current` lacks
/// are removed. Each keeps the order of its listing.
pub fn diff_refs(previous: &Vec<Observed>, current: &Vec<Observed>) -> (d: RefDiff)
    ensures
        keys_of(d.new@) == observed_keys(current@.filter(|o: Observed| is_new_in(previous@, o))),
        keys_of(d.changed@) == observed_keys(
            current@.filter(|o: Observed| is_changed_in(previous@, o)),
        ),
        keys_of(d.removed@) == observed_keys(
            previous@.filter(|o: Observed| is_new_in(current@, o)),
        ),
{
    let ghost new_pred = |o: Observed| is_new_in(previous@, o);
    let ghost changed_pred = |o: Observed| is_changed_in(previous@, o);
    let ghost removed_pred = |o: Observed| is_new_in(current@, o);
    let mut new: Vec<Ref> = Vec::new();
    let mut changed: Vec<Ref> = Vec::new();
    let mut i: usize = 0;
    while i < current.len()
        invariant
            i <= current@.len(),
            new_pred == (|o: Observed| is_new_in(previous@, o)),
            changed_pred == (|o: Observed| is_changed_in(previous@, o)),
            keys_of(new@) == observed_keys(current@.take(i as int).filter(new_pred)),
            keys_of(changed@) == observed_keys(current@.take(i as int).filter(changed_pred)),
        decreases current@.len() - i,
    {
        let o = &current[i];
        let ghost before = current@.take(i as int);
        assert(current@.take(i as int + 1) =~= before.push(*o));
        proof {
            before.lemma_filter_push(*o, new_pred);
            before.lemma_filter_push(*o, changed_pred);
        }
        let ghost new_before = new@;
        let ghost changed_before = changed@;
        match find_listed(previous, &o.r) {
            None => {
                new.push(o.r.copy());
                assert(keys_of(new@) =~= keys_of(new_before).push(key_of(o.r)));
                assert(observed_keys(before.filter(new_pred).push(*o)) =~= observed_keys(
                    before.filter(new_pred),
                ).push(key_of(o.r)));
            },
            Some(j) => {
                if !(previous[j].sha == o.sha) {
                    changed.push(o.r.copy());
                    assert(keys_of(changed@) =~= keys_of(changed_before).push(key_of(o.r)));
                    assert(observed_keys(before.filter(changed_pred).push(*o)) =~= observed_keys(
                        before.filter(changed_pred),
                    ).push(key_of(o.r)));
                }
            },
        }
        i = i + 1;
    }
    let mut removed: Vec<Ref> = Vec::new();
    let mut k: usize = 0;
    while k < previous.len()
        invariant
            k <= previous@.len(),
            removed_pred == (|o: Observed| is_new_in(current@, o)),
            keys_of(removed@) == observed_keys(previous@.take(k as int).filter(removed_pred)),
        decreases previous@.len() - k,
    {
        let p = &previous[k];
        let ghost before = previous@.take(k as int);
        assert(previous@.take(k as int + 1) =~= before.push(*p));
        proof {
            before.lemma_filter_push(*p, removed_pred);
        }
        let ghost removed_before = removed@;
        if find_listed(current, &p.r).is_none() {
            removed.push(p.r.copy());
            assert(keys_of(removed@) =~= keys_of(removed_before).push(key_of(p.r)));
            assert(observed_keys(before.filter(removed_pred).push(*p)) =~= observed_keys(
                before.filter(removed_pred),
            ).push(key_of(p.r)));
        }
        k = k + 1;
    }
    assert(current@.take(current@.len() as int) =~= current@);
    assert(previous@.take(previous@.len() as int) =~= previous@);
    RefDiff { new, changed, removed }
}

/// The names of `refs`, in order.
pub open spec fn names_of(refs: Seq<Ref>) -> Seq<Seq<char>> {
    refs.map_values(|r: Ref| r.name@)
}

impl RefDiff {
    /// The references whose open ledger row a run closes: removed, then changed.
    pub open spec fn closing(&self) -> Seq<Ref> {
        self.removed@ + self.changed@
    }

    /// The references whose target moved or newly appeared: changed, then new.
    pub open spec fn frontier(&self) -> Seq<Ref> {
        self.changed@ + self.new@
    }

    /// The `k`-th closing reference.
    pub fn closing_at(&self, k: usize) -> (r: &Ref)
        requires
            k < self.closing().len(),
        ensures
            *r == self.closing()[k as int],
    {
        if k < self.removed.len() {
            &self.removed[k]
        } else {
            &self.changed[k - self.removed.len()]
        }
    }

    /// The `k`-th frontier reference.
    pub fn frontier_at(&self, k: usize) -> (r: &Ref)
        requires
            k < self.frontier().len(),
        ensures
            *r == self.frontier()[k as int],
    {
        if k < self.changed.len() {
            &self.changed[k]
        } else {
            &self.new[k - self.changed.len()]
        }
    }
}

} // verus!
