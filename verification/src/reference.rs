//! References: named pointers to an object id or to another reference.

use crate::commit::{read_commit, Commit};
use crate::data::{get_oid, prefixed, resolve_name, Error, Repository};
use crate::entry::{
    cleared_paths, file_views, patterns, restored_files, string_views, Node, Restore, Tree,
};
use crate::text::{from_chars, has_prefix, same, split, split_chars, starts_with, subrange, to_chars, views};
use vstd::prelude::*;

verus! {

/// A reference as it was read, or as it is to be written.
#[derive(Debug)]
pub struct RefValue {
    /// The name of the reference at which reading ended.
    pub ref_oid: Option<String>,
    /// Whether the reference points to another reference.
    pub symbolic: bool,
    /// The object id, or the name of the other reference.
    pub value: String,
}

/// A `RefValue` with its strings taken as character sequences.
pub struct RefView {
    pub ref_oid: Option<Seq<char>>,
    pub symbolic: bool,
    pub value: Seq<char>,
}

impl View for RefValue {
    type V = RefView;

    open spec fn view(&self) -> RefView {
        RefView {
            ref_oid: match self.ref_oid {
                Some(name) => Some(name@),
                None => None,
            },
            symbolic: self.symbolic,
            value: self.value@,
        }
    }
}

/// The marker with which the stored text of a symbolic reference begins.
pub open spec fn symbolic_marker() -> Seq<char> {
    seq!['r', 'e', 'f', ':']
}

/// Whether the stored text `content` is that of a symbolic reference.
pub open spec fn is_symbolic(content: Seq<char>) -> bool {
    starts_with(content, symbolic_marker())
}

/// The stored text of the reference value `v`.
pub open spec fn ref_text(v: RefView) -> Seq<char> {
    if v.symbolic {
        symbolic_marker() + v.value
    } else {
        v.value
    }
}

/// What reading the reference `name` gives: nothing when no reference of
/// that name is stored; else the reference itself, or, with `deref`, the
/// one that the chain of symbolic references ends at. A chain longer than
/// `fuel` steps is reported as a cycle.
pub open spec fn resolve(
    refs: Map<Seq<char>, Seq<char>>,
    name: Seq<char>,
    deref: bool,
    fuel: nat,
) -> Result<Option<RefView>, Error>
    decreases fuel,
{
    if !refs.contains_key(name) {
        Ok(None)
    } else if !is_symbolic(refs[name]) {
        Ok(Some(RefView { ref_oid: Some(name), symbolic: false, value: refs[name] }))
    } else if !deref {
        Ok(Some(RefView { ref_oid: Some(name), symbolic: true, value: refs[name].skip(4) }))
    } else if fuel == 0 {
        Err(Error::CycleDetected)
    } else {
        resolve(refs, refs[name].skip(4), true, (fuel - 1) as nat)
    }
}

/// The name that a write to `name` goes to when symbolic references are
/// followed: the first name on the chain that is not a stored symbolic
/// reference.
pub open spec fn write_target(refs: Map<Seq<char>, Seq<char>>, name: Seq<char>, fuel: nat) -> Result<
    Seq<char>,
    Error,
>
    decreases fuel,
{
    if !refs.contains_key(name) || !is_symbolic(refs[name]) {
        Ok(name)
    } else if fuel == 0 {
        Err(Error::CycleDetected)
    } else {
        write_target(refs, refs[name].skip(4), (fuel - 1) as nat)
    }
}

/// The order of the stored references `keys` after a write to `target`:
/// a reference that was not stored goes to the end.
pub open spec fn keys_after(
    keys: Seq<Seq<char>>,
    refs: Map<Seq<char>, Seq<char>>,
    target: Seq<char>,
) -> Seq<Seq<char>> {
    if refs.contains_key(target) {
        keys
    } else {
        keys.push(target)
    }
}

/// Whether `after` is `before` with `text` written to the reference
/// `target`.
pub open spec fn is_written(
    before: crate::store::TextMap,
    after: crate::store::TextMap,
    target: Seq<char>,
    text: Seq<char>,
) -> bool {
    &&& after@ == before@.insert(target, text)
    &&& after.key_seq() == keys_after(before.key_seq(), before@, target)
}

/// Whether the outcome `r` is the outcome `expected`.
pub open spec fn same_ref_outcome(
    r: Result<Option<RefValue>, Error>,
    expected: Result<Option<RefView>, Error>,
) -> bool {
    match r {
        Ok(Some(v)) => expected == Ok::<Option<RefView>, Error>(Some(v@)),
        Ok(None) => expected == Ok::<Option<RefView>, Error>(None),
        Err(e) => expected == Err::<Option<RefView>, Error>(e),
    }
}

/// The characters of the symbolic marker.
fn marker_chars() -> (v: Vec<char>)
    ensures
        v@ == symbolic_marker(),
{
    let v = vec!['r', 'e', 'f', ':'];
    assert(v@ =~= symbolic_marker());
    v
}

impl RefValue {
    /// A reference value made of its three parts.
    pub fn new(ref_oid: Option<&str>, symbolic: bool, value: &str) -> (r: RefValue)
        ensures
            r@ == (RefView {
                ref_oid: match ref_oid {
                    Some(name) => Some(name@),
                    None => None,
                },
                symbolic,
                value: value@,
            }),
    {
        RefValue {
            ref_oid: match ref_oid {
                Some(name) => Some(name.to_owned()),
                None => None,
            },
            symbolic,
            value: value.to_owned(),
        }
    }

    /// Reads the reference `refs`. With `deref`, symbolic references are
    /// followed to the one they end at. A reference that is not stored is
    /// no error: the result is `None`.
    pub fn get_ref(repo: &Repository, refs: &str, deref: bool) -> (r: Result<
        Option<RefValue>,
        Error,
    >)
        ensures
            same_ref_outcome(r, resolve(repo.refs@, refs@, deref, repo.refs.spec_len())),
    {
        let marker = marker_chars();
        let mut name: String = refs.to_owned();
        let mut fuel: usize = repo.refs.len();
        loop
            invariant
                marker@ == symbolic_marker(),
                resolve(repo.refs@, refs@, deref, repo.refs.spec_len()) == resolve(
                    repo.refs@,
                    name@,
                    deref,
                    fuel as nat,
                ),
            decreases fuel,
        {
            let content = match repo.refs.get(name.as_str()) {
                None => { return Ok(None); },
                Some(content) => content,
            };
            let chars = to_chars(content.as_str());
            if !has_prefix(&chars, &marker) {
                return Ok(Some(RefValue { ref_oid: Some(name), symbolic: false, value: content.clone() }));
            }
            let target = from_chars(&subrange(&chars, 4, chars.len()));
            assert(target@ == content@.skip(4));
            if !deref {
                return Ok(Some(RefValue { ref_oid: Some(name), symbolic: true, value: target }));
            }
            if fuel == 0 {
                return Err(Error::CycleDetected);
            }
            fuel -= 1;
            name = target;
        }
    }

    /// The name that a write to `refs` goes to when symbolic references
    /// are followed.
    fn target_of(repo: &Repository, refs: &str) -> (r: Result<String, Error>)
        ensures
            match r {
                Ok(name) => write_target(repo.refs@, refs@, repo.refs.spec_len()) == Ok::<
                    Seq<char>,
                    Error,
                >(name@),
                Err(e) => write_target(repo.refs@, refs@, repo.refs.spec_len()) == Err::<
                    Seq<char>,
                    Error,
                >(e),
            },
    {
        let marker = marker_chars();
        let mut name: String = refs.to_owned();
        let mut fuel: usize = repo.refs.len();
        loop
            invariant
                marker@ == symbolic_marker(),
                write_target(repo.refs@, refs@, repo.refs.spec_len()) == write_target(
                    repo.refs@,
                    name@,
                    fuel as nat,
                ),
            decreases fuel,
        {
            let content = match repo.refs.get(name.as_str()) {
                None => { return Ok(name); },
                Some(content) => content,
            };
            let chars = to_chars(content.as_str());
            if !has_prefix(&chars, &marker) {
                return Ok(name);
            }
            if fuel == 0 {
                return Err(Error::CycleDetected);
            }
            let target = from_chars(&subrange(&chars, 4, chars.len()));
            assert(target@ == content@.skip(4));
            fuel -= 1;
            name = target;
        }
    }

    /// Writes `ref_value` to the reference `refs` and returns the text
    /// written. With `deref`, a symbolic `refs` is followed first, so that
    /// the write goes to the reference that the chain ends at, stored or
    /// not. An error leaves the repository as it was.
    pub fn update_ref(repo: &mut Repository, refs: &str, ref_value: &RefValue, deref: bool) -> (r:
        Result<String, Error>)
        requires
            ref_value.value@.len() > 0,
        ensures
            final(repo).objects == old(repo).objects,
            match (if deref {
                write_target(old(repo).refs@, refs@, old(repo).refs.spec_len())
            } else {
                Ok(refs@)
            }) {
                Ok(target) => {
                    &&& r matches Ok(text)
                    &&& text@ == ref_text(ref_value@)
                    &&& is_written(old(repo).refs, final(repo).refs, target, text@)
                },
                Err(e) => r == Err::<String, Error>(e) && final(repo).refs == old(repo).refs,
            },
    {
        let target = if deref {
            match RefValue::target_of(repo, refs) {
                Ok(name) => name,
                Err(e) => { return Err(e); },
            }
        } else {
            refs.to_owned()
        };
        let text = if ref_value.symbolic {
            let mut chars = marker_chars();
            let mut value = to_chars(ref_value.value.as_str());
            chars.append(&mut value);
            from_chars(&chars)
        } else {
            ref_value.value.clone()
        };
        repo.refs.insert(target.as_str(), text.as_str());
        Ok(text)
    }
}

/// What `HEAD` is set to when `name` is switched to: the branch of that
/// name where there is one, else the id that `name` stands for.
pub open spec fn switched_head(branch: Option<RefView>, name: Seq<char>, oid: Seq<char>) -> RefView {
    if branch is Some {
        RefView { ref_oid: Some(oid), symbolic: true, value: "refs/heads/"@ + name }
    } else {
        RefView { ref_oid: Some(oid), symbolic: false, value: oid }
    }
}

/// What a switch to `name` restores and what it sets `HEAD` to: the tree
/// of the commit that `name` stands for, and the new value of `HEAD`.
pub open spec fn switch_target(repo: &Repository, name: Seq<char>) -> Result<
    (Seq<char>, RefView),
    Error,
> {
    let fuel = repo.refs.spec_len();
    match resolve_name(repo.refs@, name, fuel) {
        Err(e) => Err(e),
        Ok(oid) => match read_commit(repo.objects@, oid) {
            Err(e) => Err(e),
            Ok(c) => match resolve(repo.refs@, "refs/heads/"@ + name, true, fuel) {
                Err(e) => Err(e),
                Ok(branch) => if branch is None && oid.len() == 0 {
                    Err(Error::Corrupt)
                } else {
                    Ok((c.tree, switched_head(branch, name, oid)))
                },
            },
        },
    }
}

/// What a chain of symbolic references ends at is not symbolic.
pub proof fn lemma_resolved_is_direct(
    refs: Map<Seq<char>, Seq<char>>,
    name: Seq<char>,
    fuel: nat,
)
    requires
        resolve(refs, name, true, fuel) matches Ok(Some(_)),
    ensures
        !resolve(refs, name, true, fuel)->Ok_0->0.symbolic,
        !is_symbolic(resolve(refs, name, true, fuel)->Ok_0->0.value),
    decreases fuel,
{
    if refs.contains_key(name) && is_symbolic(refs[name]) && fuel > 0 {
        lemma_resolved_is_direct(refs, refs[name].skip(4), (fuel - 1) as nat);
    }
}

/// After a switch, `HEAD` is symbolic where the name is that of a
/// branch, and holds the commit's id where it is not: a switch to a
/// branch stays on the branch, a switch to anything else leaves `HEAD`
/// detached.
pub proof fn law_switch_head(repo: &Repository, name: Seq<char>)
    requires
        switch_target(repo, name) is Ok,
    ensures
        ({
            let head = switch_target(repo, name)->Ok_0.1;
            let branch = resolve(repo.refs@, "refs/heads/"@ + name, true, repo.refs.spec_len());
            let oid = resolve_name(repo.refs@, name, repo.refs.spec_len());
            &&& branch matches Ok(Some(_)) ==> is_symbolic(ref_text(head)) && ref_text(head)
                == symbolic_marker() + "refs/heads/"@ + name
            &&& branch matches Ok(None) ==> !is_symbolic(ref_text(head)) && oid == Ok::<
                Seq<char>,
                Error,
            >(ref_text(head))
        }),
{
    let fuel = repo.refs.spec_len();
    let head = switch_target(repo, name)->Ok_0.1;
    let branch = resolve(repo.refs@, "refs/heads/"@ + name, true, fuel);
    let oid = resolve_name(repo.refs@, name, fuel)->Ok_0;
    if branch matches Ok(Some(_)) {
        let text = symbolic_marker() + ("refs/heads/"@ + name);
        assert(text.take(4) =~= symbolic_marker());
        assert(text =~= symbolic_marker() + "refs/heads/"@ + name);
    } else {
        lemma_resolved_name_is_direct(repo.refs@, name, fuel);
    }
}

/// The id that a name stands for is no symbolic reference.
pub proof fn lemma_resolved_name_is_direct(
    refs: Map<Seq<char>, Seq<char>>,
    name: Seq<char>,
    fuel: nat,
)
    requires
        resolve_name(refs, name, fuel) is Ok,
    ensures
        !is_symbolic(resolve_name(refs, name, fuel)->Ok_0),
{
    let all = crate::data::candidates(name);
    lemma_first_match_is_direct(refs, all, fuel);
    match crate::data::first_match(refs, all, fuel) {
        Ok(None) => {
            assert(crate::data::is_hex_digit(name[0]));
            if is_symbolic(name) {
                assert(name.take(4)[0] == symbolic_marker()[0]);
            }
        },
        _ => {},
    }
}

/// The id that the first matching candidate gives is no symbolic
/// reference.
proof fn lemma_first_match_is_direct(
    refs: Map<Seq<char>, Seq<char>>,
    names: Seq<Seq<char>>,
    fuel: nat,
)
    ensures
        crate::data::first_match(refs, names, fuel) matches Ok(Some(oid)) ==> !is_symbolic(oid),
    decreases names.len(),
{
    if names.len() > 0 {
        match resolve(refs, names[0], true, fuel) {
            Ok(Some(v)) => {
                lemma_resolved_is_direct(refs, names[0], fuel);
            },
            Ok(None) => {
                lemma_first_match_is_direct(refs, names.skip(1), fuel);
            },
            Err(e) => {},
        }
    }
}

/// The name that the chain of symbolic references from `name` reaches
/// after `i` steps.
pub open spec fn chain_name(refs: Map<Seq<char>, Seq<char>>, name: Seq<char>, i: nat) -> Seq<char>
    decreases i,
{
    if i == 0 {
        name
    } else {
        refs[chain_name(refs, name, (i - 1) as nat)].skip(4)
    }
}

/// Whether the chain from `name` is still at a stored symbolic reference
/// after `i` steps.
pub open spec fn on_chain(refs: Map<Seq<char>, Seq<char>>, name: Seq<char>, i: nat) -> bool {
    refs.contains_key(chain_name(refs, name, i)) && is_symbolic(refs[chain_name(refs, name, i)])
}

/// Whether the chain from `name` is, after `j` steps, back at the name
/// that it was at after `i` steps, and has passed stored symbolic
/// references only.
pub open spec fn comes_back(refs: Map<Seq<char>, Seq<char>>, name: Seq<char>, i: nat, j: nat) -> bool {
    &&& i < j
    &&& chain_name(refs, name, i) == chain_name(refs, name, j)
    &&& forall|k: nat| k <= j ==> #[trigger] on_chain(refs, name, k)
}

/// Whether the chain from `name` comes back to a name that it has left.
pub open spec fn is_cyclic(refs: Map<Seq<char>, Seq<char>>, name: Seq<char>) -> bool {
    exists|i: nat, j: nat| comes_back(refs, name, i, j)
}

/// The chain from the target of `name` is the chain from `name`, one
/// step on.
proof fn lemma_chain_shift(refs: Map<Seq<char>, Seq<char>>, name: Seq<char>, i: nat)
    ensures
        chain_name(refs, refs[name].skip(4), i) == chain_name(refs, name, i + 1),
    decreases i,
{
    reveal_with_fuel(chain_name, 2);
    if i > 0 {
        lemma_chain_shift(refs, name, (i - 1) as nat);
        assert(chain_name(refs, name, i + 1) == refs[chain_name(refs, name, i)].skip(4));
    } else {
        assert(chain_name(refs, name, 1) == refs[chain_name(refs, name, 0)].skip(4));
    }
}

/// Reading reports a cycle exactly where the chain stays at stored
/// symbolic references for as many steps as there is fuel.
proof fn lemma_cycle_reported(refs: Map<Seq<char>, Seq<char>>, name: Seq<char>, fuel: nat)
    ensures
        resolve(refs, name, true, fuel) == Err::<Option<RefView>, Error>(Error::CycleDetected)
            <==> (forall|k: nat| k <= fuel ==> #[trigger] on_chain(refs, name, k)),
    decreases fuel,
{
    let target = refs[name].skip(4);
    if fuel > 0 {
        lemma_cycle_reported(refs, target, (fuel - 1) as nat);
    }
    if forall|k: nat| k <= fuel ==> #[trigger] on_chain(refs, name, k) {
        assert(on_chain(refs, name, 0));
        if fuel > 0 {
            assert forall|k: nat| k <= fuel - 1 implies #[trigger] on_chain(refs, target, k) by {
                lemma_chain_shift(refs, name, k);
                assert(on_chain(refs, name, k + 1));
            }
        }
    }
    if resolve(refs, name, true, fuel) == Err::<Option<RefView>, Error>(Error::CycleDetected) {
        assert forall|k: nat| k <= fuel implies #[trigger] on_chain(refs, name, k) by {
            if k > 0 {
                lemma_chain_shift(refs, name, (k - 1) as nat);
                assert(on_chain(refs, target, (k - 1) as nat));
            }
        }
    }
}

/// A chain that comes back to a name goes round for ever.
proof fn lemma_cycle_goes_on(
    refs: Map<Seq<char>, Seq<char>>,
    name: Seq<char>,
    i: nat,
    j: nat,
    k: nat,
)
    requires
        i < j,
        chain_name(refs, name, i) == chain_name(refs, name, j),
        forall|m: nat| m <= j ==> #[trigger] on_chain(refs, name, m),
    ensures
        on_chain(refs, name, k),
        k >= j ==> chain_name(refs, name, k) == chain_name(refs, name, (k - (j - i)) as nat),
    decreases k,
{
    if k > j {
        lemma_cycle_goes_on(refs, name, i, j, (k - 1) as nat);
        lemma_cycle_goes_on(refs, name, i, j, (k - (j - i)) as nat);
        if k - 1 - (j - i) >= 0 {
            assert(chain_name(refs, name, (k - 1) as nat) == chain_name(
                refs,
                name,
                (k - 1 - (j - i)) as nat,
            ));
        }
    }
}

/// With as much fuel as there are references, reading a reference
/// reports a cycle where the chain of symbolic references comes back to
/// a name that it has left, and nowhere else.
pub proof fn law_cycle_detected(refs: Map<Seq<char>, Seq<char>>, name: Seq<char>)
    requires
        refs.dom().finite(),
    ensures
        resolve(refs, name, true, refs.dom().len()) == Err::<Option<RefView>, Error>(
            Error::CycleDetected,
        ) <==> is_cyclic(refs, name),
{
    let fuel = refs.dom().len();
    lemma_cycle_reported(refs, name, fuel);
    if is_cyclic(refs, name) {
        let (i, j) = choose|i: nat, j: nat| comes_back(refs, name, i, j);
        assert forall|k: nat| k <= fuel implies #[trigger] on_chain(refs, name, k) by {
            lemma_cycle_goes_on(refs, name, i, j, k);
        }
    }
    if forall|k: nat| k <= fuel ==> #[trigger] on_chain(refs, name, k) {
        let visited = Seq::new(fuel + 1, |k: int| chain_name(refs, name, k as nat));
        assert forall|k: int| 0 <= k < visited.len() implies refs.dom().contains(
            #[trigger] visited[k],
        ) by {
            assert(on_chain(refs, name, k as nat));
        }
        if visited.no_duplicates() {
            visited.unique_seq_to_set();
            assert(visited.to_set().subset_of(refs.dom())) by {
                assert forall|x: Seq<char>| visited.to_set().contains(x) implies refs.dom().contains(
                    x,
                ) by {
                    let k = choose|k: int| 0 <= k < visited.len() && visited[k] == x;
                    assert(refs.dom().contains(visited[k]));
                }
            }
            vstd::set_lib::lemma_len_subset(visited.to_set(), refs.dom());
        } else {
            let (a, b) = choose|a: int, b: int|
                0 <= a < visited.len() && 0 <= b < visited.len() && a != b && visited[a]
                    == visited[b];
            let i = if a < b {
                a as nat
            } else {
                b as nat
            };
            let j = if a < b {
                b as nat
            } else {
                a as nat
            };
            assert(chain_name(refs, name, i) == visited[i as int]);
            assert(chain_name(refs, name, j) == visited[j as int]);
            assert forall|k: nat| k <= j implies #[trigger] on_chain(refs, name, k) by {}
            assert(comes_back(refs, name, i, j));
        }
    }
}

/// Whether `plan` is the restore of the tree object `tree` into `dir`.
pub open spec fn is_restore(
    plan: Restore,
    repo: &Repository,
    tree: Seq<char>,
    dir: Seq<Node>,
    options: Seq<Seq<char>>,
) -> bool {
    &&& string_views(plan.cleared@) == cleared_paths(dir, options, dir.len())
    &&& file_views(plan.written@) == restored_files(repo.objects@, tree, repo.objects.spec_len()).0
    &&& plan.failure == restored_files(repo.objects@, tree, repo.objects.spec_len()).1
}

/// The name of the branch that the stored text of `HEAD` points to.
pub open spec fn branch_name(refs: Map<Seq<char>, Seq<char>>) -> Result<Option<Seq<char>>, Error> {
    if !refs.contains_key("HEAD"@) {
        Err(Error::NotFound)
    } else if !is_symbolic(refs["HEAD"@]) {
        Ok(None)
    } else if !starts_with(refs["HEAD"@].skip(4), "refs/heads/"@) {
        Err(Error::Corrupt)
    } else {
        Ok(Some(refs["HEAD"@].skip(4).skip("refs/heads/"@.len() as int)))
    }
}

impl RefValue {
    /// Whether a branch of the name `name` is stored.
    fn is_branch(repo: &Repository, name: &str) -> (r: Result<bool, Error>)
        ensures
            match resolve(repo.refs@, "refs/heads/"@ + name@, true, repo.refs.spec_len()) {
                Err(e) => r == Err::<bool, Error>(e),
                Ok(branch) => r == Ok::<bool, Error>(branch is Some),
            },
    {
        let path = prefixed("refs/heads/", &to_chars(name));
        match RefValue::get_ref(repo, path.as_str(), true) {
            Err(e) => Err(e),
            Ok(branch) => Ok(branch.is_some()),
        }
    }

    /// Switches to the revision `name`: the tree of its commit is
    /// restored into the working directory `dir`, and `HEAD` is set to
    /// the branch `name` where there is one, else to the commit's id.
    /// Where the restore stops at a missing or corrupt object, `HEAD`
    /// stays as it was. A name that stands for no commit is an error and
    /// changes nothing.
    pub fn switch(repo: &mut Repository, name: &str, dir: &Vec<Node>, ignore_options: &[String]) -> (r:
        Result<Restore, Error>)
        ensures
            final(repo).objects == old(repo).objects,
            match switch_target(old(repo), name@) {
                Err(e) => r == Err::<Restore, Error>(e) && final(repo).refs == old(repo).refs,
                Ok((tree, head)) => {
                    &&& r matches Ok(plan)
                    &&& is_restore(plan, old(repo), tree, dir@, patterns(ignore_options@))
                    &&& if plan.failure is None {
                        is_written(old(repo).refs, final(repo).refs, "HEAD"@, ref_text(head))
                    } else {
                        final(repo).refs == old(repo).refs
                    }
                },
            },
    {
        let oid = match get_oid(repo, name) {
            Err(e) => { return Err(e); },
            Ok(oid) => oid,
        };
        let commit = match Commit::get_commit(repo, oid.as_str()) {
            Err(e) => { return Err(e); },
            Ok(commit) => commit,
        };
        let branch = match RefValue::is_branch(repo, name) {
            Err(e) => { return Err(e); },
            Ok(branch) => branch,
        };
        if !branch && oid.as_str().unicode_len() == 0 {
            return Err(Error::Corrupt);
        }
        let plan = Tree::read_tree(repo, commit.tree.as_str(), dir, ignore_options);
        if plan.failure.is_some() {
            return Ok(plan);
        }
        let head = if branch {
            RefValue {
                ref_oid: Some(oid),
                symbolic: true,
                value: prefixed("refs/heads/", &to_chars(name)),
            }
        } else {
            RefValue { ref_oid: Some(oid.clone()), symbolic: false, value: oid }
        };
        proof {
            reveal_strlit("refs/heads/");
        }
        let _ = RefValue::update_ref(repo, "HEAD", &head, false);
        Ok(plan)
    }

    /// The name of the branch that `HEAD` points to, or `None` where
    /// `HEAD` holds an object id. That there is no `HEAD` is an error.
    pub fn get_branch_name(repo: &Repository) -> (r: Result<Option<String>, Error>)
        ensures
            match r {
                Ok(Some(name)) => branch_name(repo.refs@) == Ok::<Option<Seq<char>>, Error>(
                    Some(name@),
                ),
                Ok(None) => branch_name(repo.refs@) == Ok::<Option<Seq<char>>, Error>(None),
                Err(e) => branch_name(repo.refs@) == Err::<Option<Seq<char>>, Error>(e),
            },
    {
        let head = match RefValue::get_ref(repo, "HEAD", false) {
            Err(e) => { return Err(e); },
            Ok(None) => { return Err(Error::NotFound); },
            Ok(Some(head)) => head,
        };
        if !head.symbolic {
            return Ok(None);
        }
        let value = to_chars(head.value.as_str());
        let prefix = to_chars("refs/heads/");
        if !has_prefix(&value, &prefix) {
            return Err(Error::Corrupt);
        }
        Ok(Some(from_chars(&subrange(&value, prefix.len(), value.len()))))
    }
}

/// Restores the tree of the commit `oid` into the working directory
/// `dir` and sets `HEAD` to `oid`. Where the restore stops at a missing
/// or corrupt object, `HEAD` stays as it was.
pub fn checkout(repo: &mut Repository, oid: &str, dir: &Vec<Node>, ignore_options: &[String]) -> (r:
    Result<Restore, Error>)
    requires
        oid@.len() > 0,
    ensures
        final(repo).objects == old(repo).objects,
        match read_commit(old(repo).objects@, oid@) {
            Err(e) => r == Err::<Restore, Error>(e) && final(repo).refs == old(repo).refs,
            Ok(c) => {
                &&& r matches Ok(plan)
                &&& is_restore(plan, old(repo), c.tree, dir@, patterns(ignore_options@))
                &&& if plan.failure is None {
                    is_written(old(repo).refs, final(repo).refs, "HEAD"@, oid@)
                } else {
                    final(repo).refs == old(repo).refs
                }
            },
        },
{
    let commit = match Commit::get_commit(repo, oid) {
        Err(e) => { return Err(e); },
        Ok(commit) => commit,
    };
    let plan = Tree::read_tree(repo, commit.tree.as_str(), dir, ignore_options);
    if plan.failure.is_some() {
        return Ok(plan);
    }
    let head = RefValue::new(Some(oid), false, oid);
    let _ = RefValue::update_ref(repo, "HEAD", &head, false);
    Ok(plan)
}

/// Sets the tag `tag` to the object `oid`. `HEAD` stays as it is.
pub fn create_tag(repo: &mut Repository, tag: &str, oid: &str) -> (r: Result<(), Error>)
    requires
        oid@.len() > 0,
    ensures
        final(repo).objects == old(repo).objects,
        match write_target(old(repo).refs@, "refs/tags/"@ + tag@, old(repo).refs.spec_len()) {
            Ok(target) => r is Ok && is_written(old(repo).refs, final(repo).refs, target, oid@),
            Err(e) => r == Err::<(), Error>(e) && final(repo).refs == old(repo).refs,
        },
{
    let name = prefixed("refs/tags/", &to_chars(tag));
    let value = RefValue::new(Some(oid), false, oid);
    match RefValue::update_ref(repo, name.as_str(), &value, true) {
        Ok(_) => Ok(()),
        Err(e) => Err(e),
    }
}

/// Sets the branch `name` to the object `oid`. `HEAD` stays as it is.
pub fn create_branch(repo: &mut Repository, name: &str, oid: &str) -> (r: Result<(), Error>)
    requires
        oid@.len() > 0,
    ensures
        final(repo).objects == old(repo).objects,
        match write_target(old(repo).refs@, "refs/heads/"@ + name@, old(repo).refs.spec_len()) {
            Ok(target) => r is Ok && is_written(old(repo).refs, final(repo).refs, target, oid@),
            Err(e) => r == Err::<(), Error>(e) && final(repo).refs == old(repo).refs,
        },
{
    let ref_name = prefixed("refs/heads/", &to_chars(name));
    let value = RefValue::new(Some(oid), false, oid);
    match RefValue::update_ref(repo, ref_name.as_str(), &value, true) {
        Ok(_) => Ok(()),
        Err(e) => Err(e),
    }
}

/// Sets `HEAD` itself to the object `commit`, whatever branch it pointed
/// to before. The working directory is not touched.
pub fn reset(repo: &mut Repository, commit: &str)
    requires
        commit@.len() > 0,
    ensures
        final(repo).objects == old(repo).objects,
        is_written(old(repo).refs, final(repo).refs, "HEAD"@, commit@),
{
    let value = RefValue::new(Some(commit), false, commit);
    let _ = RefValue::update_ref(repo, "HEAD", &value, false);
}

/// Whether `piece`, a part of a path between two `/`, is a name: it is
/// neither empty nor a single dot.
pub open spec fn is_name(piece: Seq<char>) -> bool {
    piece.len() > 0 && piece != seq!['.']
}

/// The names among the first `n` of `pieces`.
pub open spec fn names_of(pieces: Seq<Seq<char>>, n: nat) -> Seq<Seq<char>>
    decreases n,
{
    if n == 0 || n > pieces.len() {
        Seq::empty()
    } else if is_name(pieces[n - 1]) {
        names_of(pieces, (n - 1) as nat).push(pieces[n - 1])
    } else {
        names_of(pieces, (n - 1) as nat)
    }
}

/// The names that `path` is made of, from the outermost directory to the
/// file.
pub open spec fn components(path: Seq<char>) -> Seq<Seq<char>> {
    names_of(split(path, '/'), split(path, '/').len())
}

/// The first `n` of `parts`, with a `/` between each two.
pub open spec fn join_names(parts: Seq<Seq<char>>, n: nat) -> Seq<char>
    decreases n,
{
    if n == 0 || n > parts.len() {
        Seq::empty()
    } else if n == 1 {
        parts[0]
    } else {
        join_names(parts, (n - 1) as nat) + seq!['/'] + parts[n - 1]
    }
}

/// `name` as seen from the directory `rel`, where it lies in or below
/// that directory.
pub open spec fn relative_to(name: Seq<char>, rel: Seq<char>) -> Option<Seq<char>> {
    let whole = components(name);
    let dir = components(rel);
    if dir.len() <= whole.len() && whole.take(dir.len() as int) == dir {
        Some(join_names(whole.skip(dir.len() as int), (whole.len() - dir.len()) as nat))
    } else {
        None
    }
}

/// What the stored reference `name` adds to a listing: nothing where it
/// does not lie below `refs`, or where its last name begins with
/// `prefix`; else its name as seen from `rel`, which it must lie below.
pub open spec fn listed(name: Seq<char>, prefix: Option<Seq<char>>, rel: Seq<char>) -> Option<
    Result<Seq<char>, Error>,
> {
    let whole = components(name);
    if whole.len() < 2 || whole[0] != "refs"@ {
        None
    } else if prefix is Some && starts_with(whole.last(), prefix->0) {
        None
    } else {
        match relative_to(name, rel) {
            None => Some(Err(Error::NotFound)),
            Some(short) => Some(Ok(short)),
        }
    }
}

/// The listing of the first `n` of the stored references `keys`: `HEAD`,
/// then what each of them adds, in their order.
pub open spec fn list_refs(
    keys: Seq<Seq<char>>,
    prefix: Option<Seq<char>>,
    rel: Seq<char>,
    n: nat,
) -> Result<Seq<Seq<char>>, Error>
    decreases n,
{
    if n == 0 || n > keys.len() {
        Ok(seq!["HEAD"@])
    } else {
        match list_refs(keys, prefix, rel, (n - 1) as nat) {
            Err(e) => Err(e),
            Ok(before) => match listed(keys[n - 1], prefix, rel) {
                None => Ok(before),
                Some(Err(e)) => Err(e),
                Some(Ok(short)) => Ok(before.push(short)),
            },
        }
    }
}

/// The characters of `o`, where there is a string.
pub open spec fn option_view(o: Option<&str>) -> Option<Seq<char>> {
    match o {
        Some(s) => Some(s@),
        None => None,
    }
}

/// The names that the path `path` is made of.
fn path_components(path: &Vec<char>) -> (r: Vec<Vec<char>>)
    ensures
        views(r@) == components(path@),
{
    let pieces = split_chars(path, '/');
    let dot = vec!['.'];
    assert(dot@ =~= seq!['.']);
    let mut r: Vec<Vec<char>> = Vec::new();
    let mut i: usize = 0;
    assert(views(r@) =~= names_of(views(pieces@), 0));
    while i < pieces.len()
        invariant
            i <= pieces.len(),
            dot@ == seq!['.'],
            views(pieces@) == split(path@, '/'),
            views(r@) == names_of(views(pieces@), i as nat),
        decreases pieces.len() - i,
    {
        let ghost before = views(r@);
        assert(views(pieces@)[i as int] == pieces@[i as int]@);
        if pieces[i].len() > 0 && !same(&pieces[i], &dot) {
            r.push(subrange(&pieces[i], 0, pieces[i].len()));
            assert(pieces@[i as int]@.subrange(0, pieces@[i as int]@.len() as int)
                =~= pieces@[i as int]@);
            assert(views(r@) =~= before.push(pieces@[i as int]@));
        }
        i += 1;
    }
    r
}

/// The path `name` as seen from the directory `rel`.
fn relative_path(whole: &Vec<Vec<char>>, dir: &Vec<Vec<char>>) -> (r: Option<String>)
    ensures
        match r {
            Some(short) => views(dir@).len() <= views(whole@).len() && views(whole@).take(
                dir@.len() as int,
            ) == views(dir@) && short@ == join_names(
                views(whole@).skip(dir@.len() as int),
                (whole@.len() - dir@.len()) as nat,
            ),
            None => !(views(dir@).len() <= views(whole@).len() && views(whole@).take(
                dir@.len() as int,
            ) == views(dir@)),
        },
{
    if dir.len() > whole.len() {
        return None;
    }
    let mut i: usize = 0;
    while i < dir.len()
        invariant
            i <= dir.len(),
            dir.len() <= whole.len(),
            views(whole@).take(i as int) == views(dir@).take(i as int),
        decreases dir.len() - i,
    {
        if !same(&whole[i], &dir[i]) {
            assert(views(whole@).take(dir@.len() as int)[i as int] == whole@[i as int]@);
            assert(views(dir@)[i as int] == dir@[i as int]@);
            return None;
        }
        assert(views(whole@).take(i + 1) =~= views(whole@).take(i as int).push(whole@[i as int]@));
        assert(views(dir@).take(i + 1) =~= views(dir@).take(i as int).push(dir@[i as int]@));
        i += 1;
    }
    assert(views(dir@).take(dir@.len() as int) =~= views(dir@));
    let ghost rest = views(whole@).skip(dir@.len() as int);
    let mut short: Vec<char> = Vec::new();
    let mut k: usize = dir.len();
    while k < whole.len()
        invariant
            dir.len() <= k <= whole.len(),
            rest == views(whole@).skip(dir@.len() as int),
            short@ == join_names(rest, (k - dir.len()) as nat),
        decreases whole.len() - k,
    {
        assert(rest[k - dir.len()] == whole@[k as int]@);
        if k > dir.len() {
            short.push('/');
        }
        let mut part = subrange(&whole[k], 0, whole[k].len());
        assert(part@ =~= whole@[k as int]@);
        short.append(&mut part);
        assert(short@ =~= join_names(rest, (k + 1 - dir.len()) as nat)) by {
            if k == dir.len() {
                assert(join_names(rest, 0) =~= Seq::<char>::empty());
            }
        }
        k += 1;
    }
    Some(from_chars(&short))
}

impl RefValue {
    /// The names of the stored references: `HEAD`, then those below
    /// `refs`, in the order in which they are stored, each as seen from
    /// the directory `rel_path`. With a `prefix`, references whose last
    /// name begins with it are left out. A reference below `refs` that
    /// does not lie below `rel_path` is an error.
    pub fn get_refs(repo: &Repository, prefix: Option<&str>, rel_path: &str) -> (r: Result<
        Vec<String>,
        Error,
    >)
        ensures
            match list_refs(
                repo.refs.key_seq(),
                option_view(prefix),
                rel_path@,
                repo.refs.key_seq().len(),
            ) {
                Ok(names) => r matches Ok(v) && string_views(v@) == names,
                Err(e) => r == Err::<Vec<String>, Error>(e),
            },
    {
        let mut refs: Vec<String> = Vec::new();
        refs.push("HEAD".to_owned());
        let dir = path_components(&to_chars(rel_path));
        let root = to_chars("refs");
        let ghost keys = repo.refs.key_seq();
        let ghost want = option_view(prefix);
        let n = repo.refs.len();
        proof {
            repo.refs.lemma_keys();
            assert(string_views(refs@) =~= seq!["HEAD"@]);
        }
        let mut i: usize = 0;
        while i < n
            invariant
                i <= n,
                keys == repo.refs.key_seq(),
                keys.len() == n,
                want == option_view(prefix),
                root@ == "refs"@,
                views(dir@) == components(rel_path@),
                list_refs(keys, want, rel_path@, i as nat) == Ok::<Seq<Seq<char>>, Error>(
                    string_views(refs@),
                ),
            decreases n - i,
        {
            let ghost before = string_views(refs@);
            let name = repo.refs.key_at(i);
            let whole = path_components(&to_chars(name.as_str()));
            let mut keep: bool = whole.len() >= 2;
            if keep {
                assert(views(whole@)[0] == whole@[0]@);
                keep = same(&whole[0], &root);
            }
            if keep {
                assert(views(whole@).last() == whole@[whole.len() - 1]@);
                match prefix {
                    Some(p) => {
                        if has_prefix(&whole[whole.len() - 1], &to_chars(p)) {
                            keep = false;
                        }
                    },
                    None => {},
                }
            }
            if keep {
                match relative_path(&whole, &dir) {
                    None => {
                        assert(list_refs(keys, want, rel_path@, (i + 1) as nat) == Err::<
                            Seq<Seq<char>>,
                            Error,
                        >(Error::NotFound));
                        proof {
                            lemma_list_refs_fails(keys, want, rel_path@, (i + 1) as nat, n as nat);
                        }
                        return Err(Error::NotFound);
                    },
                    Some(short) => {
                        refs.push(short);
                        assert(string_views(refs@) =~= before.push(short@));
                    },
                }
            }
            i += 1;
        }
        Ok(refs)
    }
}

/// A listing that has failed stays failed.
proof fn lemma_list_refs_fails(
    keys: Seq<Seq<char>>,
    prefix: Option<Seq<char>>,
    rel: Seq<char>,
    i: nat,
    n: nat,
)
    requires
        i <= n <= keys.len(),
        list_refs(keys, prefix, rel, i) is Err,
    ensures
        list_refs(keys, prefix, rel, n) == list_refs(keys, prefix, rel, i),
    decreases n,
{
    if i < n {
        lemma_list_refs_fails(keys, prefix, rel, i, (n - 1) as nat);
    }
}

} // verus!
