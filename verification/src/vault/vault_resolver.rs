//! Which vault a command works on, and the confinement of every path inside it.

use vstd::prelude::*;

use crate::vault::vault_registry::{resolved, DefaultVaultError, VaultRegistry};
use crate::paths::{
    goes_up, is_step, law_pieces_make_up_the_text, lemma_pieces, path_under, pieces, steps,
    steps_of, up,
};
use crate::text::{chars_of, has_prefix, join, occurs_at, views};

verus! {

/// The directory that marks the root of a vault.
pub const VAULT_MARKER_DIR: &'static str = ".okf";

/// A directory that may be the root of a vault.
#[derive(Debug, Clone)]
pub struct Candidate {
    pub dir: String,
    /// Whether it holds the marker directory.
    pub has_marker: bool,
}

/// The first candidate with a marker.
pub open spec fn first_marked(candidates: Seq<Candidate>) -> Option<int>
    decreases candidates.len(),
{
    if candidates.len() == 0 {
        None
    } else {
        match first_marked(candidates.drop_last()) {
            Some(i) => Some(i),
            None => if candidates.last().has_marker {
                Some(candidates.len() - 1)
            } else {
                None
            },
        }
    }
}

/// The vault to work on: the one named explicitly, else the nearest of the
/// `candidates` (the current directory and its parents, nearest first) with a
/// marker, else the registry's default.
pub fn resolve_vault_with(
    explicit: Option<&str>,
    candidates: &Vec<Candidate>,
    registry: &VaultRegistry,
) -> (r: Result<String, DefaultVaultError>)
    ensures
        match explicit {
            Some(name) => r is Ok && r->Ok_0@ == resolved(registry.vaults@, name@),
            None => match first_marked(candidates@) {
                Some(i) => r is Ok && r->Ok_0@ == candidates@[i].dir@,
                None => match r {
                    Ok(path) => registry.default is Some && registry.vaults@.contains_key(
                        registry.default->0@,
                    ) && path@ == registry.vaults@[registry.default->0@].path@,
                    Err(DefaultVaultError::NoneConfigured) => registry.default is None,
                    Err(DefaultVaultError::NotRegistered { name }) => registry.default is Some
                        && name@ == registry.default->0@ && !registry.vaults@.contains_key(name@),
                },
            },
        },
{
    match explicit {
        Some(name) => {
            return Ok(registry.resolve(name));
        },
        None => {},
    }
    let mut i: usize = 0;
    while i < candidates.len()
        invariant
            explicit is None,
            i <= candidates@.len(),
            first_marked(candidates@.take(i as int)) is None,
        decreases candidates@.len() - i,
    {
        proof {
            assert(candidates@.take(i + 1).drop_last() =~= candidates@.take(i as int));
        }
        if candidates[i].has_marker {
            proof {
                lemma_first_marked(candidates@, i + 1);
            }
            return Ok(candidates[i].dir.clone());
        }
        i += 1;
    }
    assert(candidates@.take(candidates@.len() as int) =~= candidates@);
    registry.default_path()
}

proof fn lemma_first_marked(candidates: Seq<Candidate>, k: int)
    requires
        0 <= k <= candidates.len(),
        first_marked(candidates.take(k)) is Some,
    ensures
        first_marked(candidates) == first_marked(candidates.take(k)),
    decreases candidates.len(),
{
    if k < candidates.len() {
        assert(candidates.drop_last().take(k) =~= candidates.take(k));
        lemma_first_marked(candidates.drop_last(), k);
    } else {
        assert(candidates.take(k) =~= candidates);
    }
}

/// The directories from an absolute path up to the root, nearest first.
pub open spec fn ancestors(parts: Seq<Seq<char>>) -> Seq<Seq<char>>
    decreases parts.len(),
{
    seq![path_under(seq!['/'], parts)] + (if parts.len() == 0 {
        seq![]
    } else {
        ancestors(parts.drop_last())
    })
}

/// The directories from an absolute path up to the root, nearest first.
pub fn ancestors_of(path: &str) -> (r: Vec<String>)
    ensures
        views(r@) == ancestors(steps(path@)),
{
    let mut parts = steps_of(path);
    let mut out: Vec<String> = Vec::new();
    assert(views(out@) + ancestors(views(parts@)) =~= ancestors(steps(path@)));
    while parts.len() > 0
        invariant
            views(out@) + ancestors(views(parts@)) == ancestors(steps(path@)),
        decreases parts@.len(),
    {
        let ghost before = out@;
        let ghost was = views(parts@);
        let dir = under("/", &parts);
        let ghost what = dir@;
        out.push(dir);
        let _ = parts.pop();
        proof {
            reveal_strlit("/");
            assert("/"@ =~= seq!['/']);
            assert(views(parts@) =~= was.drop_last());
            assert(views(out@) =~= views(before).push(what));
            assert(views(out@) + ancestors(views(parts@)) =~= views(before) + ancestors(was));
        }
    }
    let ghost before = out@;
    out.push("/".to_string());
    proof {
        reveal_strlit("/");
        assert("/"@ =~= seq!['/']);
        assert(ancestors(views(parts@)) =~= seq![seq!['/']]);
        assert(views(out@) =~= views(before) + seq![seq!['/']]);
    }
    out
}

/// The path that leads from `base` over `parts`.
pub fn under(base: &str, parts: &Vec<String>) -> (r: String)
    ensures
        r@ == path_under(base@, views(parts@)),
{
    proof {
        reveal_strlit("/");
        assert("/"@ =~= seq!['/']);
    }
    let mut out = base.to_string();
    if parts.len() == 0 {
        return out;
    }
    let cs = chars_of(base);
    if cs.len() == 0 || cs[cs.len() - 1] != '/' {
        out.append("/");
    }
    let rest = join(parts, "/");
    out.append(rest.as_str());
    out
}

// ---------------------------------------------------------------------------
// The sandbox
// ---------------------------------------------------------------------------

/// Why a path may not be used inside a vault.
#[derive(Debug, Clone, PartialEq, Eq)]
pub enum SandboxError {
    /// It is absolute.
    Absolute,
    /// It climbs above the root.
    Escapes,
}

impl SandboxError {
    /// The message for a person.
    pub fn message(&self, vault_root: &str, relative: &str) -> (r: String)
        ensures
            r@ == match self {
                SandboxError::Absolute => "path '"@ + relative@
                    + "' must be relative to the vault root, not absolute"@,
                SandboxError::Escapes => "path '"@ + relative@ + "' escapes vault root '"@
                    + vault_root@ + "': not permitted"@,
            },
    {
        let mut s = "path '".to_string();
        s.append(relative);
        match self {
            SandboxError::Absolute => {
                s.append("' must be relative to the vault root, not absolute");
            },
            SandboxError::Escapes => {
                s.append("' escapes vault root '");
                s.append(vault_root);
                s.append("': not permitted");
            },
        }
        s
    }
}

/// Where `parts` lead below a root, if they never climb above it: `..` takes back
/// the step before it.
pub open spec fn walk(parts: Seq<Seq<char>>) -> Option<Seq<Seq<char>>>
    decreases parts.len(),
{
    if parts.len() == 0 {
        Some(seq![])
    } else {
        match walk(parts.drop_last()) {
            None => None,
            Some(at) => if parts.last() == up() {
                if at.len() == 0 {
                    None
                } else {
                    Some(at.drop_last())
                }
            } else {
                Some(at.push(parts.last()))
            },
        }
    }
}

/// Whether a path is absolute.
pub open spec fn is_absolute(path: Seq<char>) -> bool {
    path.len() > 0 && path[0] == '/'
}

/// What the sandbox makes of a path relative to a vault: the steps from the root
/// to where it leads, or why it is refused.
pub open spec fn sandboxed(relative: Seq<char>) -> Result<Seq<Seq<char>>, SandboxError> {
    if is_absolute(relative) {
        Err(SandboxError::Absolute)
    } else {
        match walk(steps(relative)) {
            Some(at) => Ok(at),
            None => Err(SandboxError::Escapes),
        }
    }
}

/// The steps from the root of a vault to where `relative` leads. `.` and `..` are
/// resolved by their text alone; nothing is read from disk. An absolute path is
/// refused, and so is one that climbs above the root, even if it comes back.
pub fn sandbox_steps(relative: &str) -> (r: Result<Vec<String>, SandboxError>)
    ensures
        match r {
            Ok(at) => sandboxed(relative@) == Ok::<Seq<Seq<char>>, SandboxError>(views(at@)),
            Err(e) => sandboxed(relative@) == Err::<Seq<Seq<char>>, SandboxError>(e),
        },
{
    let cs = chars_of(relative);
    if cs.len() > 0 && cs[0] == '/' {
        return Err(SandboxError::Absolute);
    }
    let parts = steps_of(relative);
    let mut at: Vec<String> = Vec::new();
    let mut i: usize = 0;
    assert(views(at@) =~= seq![]);
    assert(views(parts@).take(0) =~= seq![]);
    while i < parts.len()
        invariant
            i <= parts@.len(),
            views(parts@) == steps(relative@),
            walk(views(parts@).take(i as int)) == Some(views(at@)),
            !is_absolute(relative@),
        decreases parts@.len() - i,
    {
        let ghost before = at@;
        proof {
            let now = views(parts@).take(i + 1);
            assert(now.drop_last() =~= views(parts@).take(i as int));
            assert(now.last() == parts@[i as int]@);
        }
        if goes_up(parts[i].as_str()) {
            if at.len() == 0 {
                proof {
                    lemma_walk_stays_refused(views(parts@), i + 1);
                }
                return Err(SandboxError::Escapes);
            }
            let _ = at.pop();
            assert(views(at@) =~= views(before).drop_last());
        } else {
            at.push(parts[i].clone());
            assert(views(at@) =~= views(before).push(parts@[i as int]@));
        }
        i += 1;
    }
    assert(views(parts@).take(parts@.len() as int) =~= views(parts@));
    Ok(at)
}

/// The path that `relative` leads to inside the vault at `root`, or why it is
/// refused. Every path that is derived from a name or from a file's content goes
/// through here before it is read or written.
pub fn sandbox_path(root: &str, relative: &str) -> (r: Result<String, SandboxError>)
    ensures
        match r {
            Ok(path) => sandboxed(relative@) is Ok && path@ == path_under(
                root@,
                sandboxed(relative@)->Ok_0,
            ),
            Err(e) => sandboxed(relative@) == Err::<Seq<Seq<char>>, SandboxError>(e),
        },
{
    match sandbox_steps(relative) {
        Ok(at) => Ok(under(root, &at)),
        Err(e) => Err(e),
    }
}

proof fn lemma_walk_stays_refused(parts: Seq<Seq<char>>, k: int)
    requires
        0 <= k <= parts.len(),
        walk(parts.take(k)) is None,
    ensures
        walk(parts) is None,
    decreases parts.len(),
{
    if k < parts.len() {
        assert(parts.drop_last().take(k) =~= parts.take(k));
        lemma_walk_stays_refused(parts.drop_last(), k);
    } else {
        assert(parts.take(k) =~= parts);
    }
}

/// A step that stays where it is put: not empty, neither `.` nor `..`, and without
/// a slash.
pub open spec fn plain_step(step: Seq<char>) -> bool {
    is_step(step) && step != up() && !step.contains('/')
}

proof fn lemma_walk_is_plain(parts: Seq<Seq<char>>)
    requires
        forall|i: int|
            0 <= i < parts.len() ==> is_step(#[trigger] parts[i]) && !parts[i].contains('/'),
    ensures
        match walk(parts) {
            Some(at) => forall|i: int| 0 <= i < at.len() ==> plain_step(#[trigger] at[i]),
            None => true,
        },
    decreases parts.len(),
{
    if parts.len() > 0 {
        let front = parts.drop_last();
        assert forall|i: int| 0 <= i < front.len() implies is_step(#[trigger] front[i])
            && !front[i].contains('/') by {
            assert(front[i] == parts[i]);
        }
        lemma_walk_is_plain(front);
        assert(is_step(parts[parts.len() - 1]));
    }
}

/// Whatever the sandbox lets through lies below the root: the root, followed by
/// plain steps only.
pub proof fn law_sandboxed_paths_stay_inside(root: Seq<char>, relative: Seq<char>)
    requires
        sandboxed(relative) is Ok,
    ensures
        forall|i: int|
            0 <= i < sandboxed(relative)->Ok_0.len() ==> plain_step(
                #[trigger] sandboxed(relative)->Ok_0[i],
            ),
        has_prefix(path_under(root, sandboxed(relative)->Ok_0), root),
{
    let parts = steps(relative);
    lemma_pieces(relative, '/');
    let all = pieces(relative, '/');
    let pred = |p: Seq<char>| is_step(p);
    assert forall|i: int| 0 <= i < parts.len() implies is_step(#[trigger] parts[i])
        && !parts[i].contains('/') by {
        all.lemma_filter_contains_rev(pred, parts[i]);
        let k = choose|k: int| 0 <= k < all.len() && all[k] == parts[i];
        assert(!all[k].contains('/'));
        broadcast use vstd::seq_lib::group_filter_ensures;
        assert(pred(parts[i]));
    }
    lemma_walk_is_plain(parts);
    let path = path_under(root, sandboxed(relative)->Ok_0);
    assert(path.subrange(0, root.len() as int) =~= root);
}

/// A path below one vault is not a path below another, unless one vault lies
/// inside the other.
pub proof fn law_vaults_do_not_overlap(
    root_a: Seq<char>,
    root_b: Seq<char>,
    parts_a: Seq<Seq<char>>,
    parts_b: Seq<Seq<char>>,
)
    requires
        root_a.len() > 0 && root_a.last() != '/',
        root_b.len() > 0 && root_b.last() != '/',
        !has_prefix(root_a + seq!['/'], root_b + seq!['/']),
        !has_prefix(root_b + seq!['/'], root_a + seq!['/']),
    ensures
        path_under(root_a, parts_a) != path_under(root_b, parts_b),
{
    let a = path_under(root_a, parts_a);
    let b = path_under(root_b, parts_b);
    if a == b {
        let ra = root_a + seq!['/'];
        let rb = root_b + seq!['/'];
        let whole = a + seq!['/'];
        assert(whole.take(ra.len() as int) =~= ra);
        assert(whole.take(rb.len() as int) =~= rb);
        if ra.len() <= rb.len() {
            assert(rb.subrange(0, ra.len() as int) =~= ra);
            assert(occurs_at(rb, ra, 0));
        } else {
            assert(ra.subrange(0, rb.len() as int) =~= rb);
            assert(occurs_at(ra, rb, 0));
        }
    }
}

proof fn lemma_all_kept<A>(s: Seq<A>, f: spec_fn(A) -> bool)
    requires
        forall|i: int| 0 <= i < s.len() ==> f(#[trigger] s[i]),
    ensures
        s.filter(f) == s,
    decreases s.len(),
{
    reveal(Seq::filter);
    if s.len() > 0 {
        let front = s.drop_last();
        assert forall|i: int| 0 <= i < front.len() implies f(#[trigger] front[i]) by {
            assert(f(s[i]));
        }
        lemma_all_kept(front, f);
        assert(f(s[s.len() - 1]));
        assert(front.push(s.last()) =~= s);
    }
}

/// A path of plain steps is let through and leads where it says: to the root, a slash and
/// the path.
pub proof fn law_plain_paths_are_let_through(root: Seq<char>, path: Seq<char>)
    requires
        forall|i: int| 0 <= i < pieces(path, '/').len() ==> plain_step(#[trigger] pieces(path, '/')[i]),
        root.len() == 0 || root.last() != '/',
    ensures
        sandboxed(path) == Ok::<Seq<Seq<char>>, SandboxError>(pieces(path, '/')),
        path_under(root, pieces(path, '/')) == root + seq!['/'] + path,
{
    let all = pieces(path, '/');
    let f = |p: Seq<char>| is_step(p);
    lemma_pieces(path, '/');
    law_pieces_make_up_the_text(path, '/');
    assert forall|i: int| 0 <= i < all.len() implies f(#[trigger] all[i]) by {
        assert(plain_step(all[i]));
    }
    lemma_all_kept(all, f);
    law_walks_follow_their_steps(all, seq![], seq![]);
    assert(!is_absolute(path)) by {
        if is_absolute(path) {
            lemma_first_piece(path);
            assert(plain_step(all[0]));
        }
    }
}

proof fn lemma_first_piece(path: Seq<char>)
    requires
        path.len() > 0,
        path[0] == '/',
    ensures
        pieces(path, '/').len() > 1,
        pieces(path, '/')[0].len() == 0,
    decreases path.len(),
{
    let front = path.drop_last();
    lemma_pieces(front, '/');
    if front.len() == 0 {
        assert(path.last() == '/');
        assert(pieces(front, '/') =~= seq![seq![]]);
    } else {
        lemma_first_piece(front);
    }
}

/// A walk over plain steps ends where they lead; a step and `..` behind it come to nothing; a
/// `..` at the root is refused; and what is refused stays refused, whatever follows.
pub proof fn law_walks_follow_their_steps(
    parts: Seq<Seq<char>>,
    more: Seq<Seq<char>>,
    step: Seq<char>,
)
    ensures
        (forall|i: int| 0 <= i < parts.len() ==> #[trigger] parts[i] != up()) ==> walk(parts)
            == Some(parts),
        step != up() ==> walk(parts + seq![step, up()]) == walk(parts),
        walk(seq![up()]) is None,
        walk(parts) is None ==> walk(parts + more) is None,
        walk(parts) is Some && (forall|i: int| 0 <= i < more.len() ==> #[trigger] more[i] != up())
            ==> walk(parts + more) == Some(walk(parts)->0 + more),
    decreases parts.len() + more.len(),
{
    let two = parts + seq![step, up()];
    assert(two.drop_last().drop_last() =~= parts);
    assert(two.last() == up());
    assert(two.drop_last().last() == step);
    if step != up() && walk(parts) is Some {
        assert(walk(two.drop_last()) == Some(walk(parts)->0.push(step)));
        assert(walk(parts)->0.push(step).drop_last() =~= walk(parts)->0);
    }
    assert(walk(seq![up()].drop_last()) == Some(Seq::<Seq<char>>::empty()));
    if parts.len() > 0 {
        let front = parts.drop_last();
        law_walks_follow_their_steps(front, seq![], step);
        if forall|i: int| 0 <= i < parts.len() ==> #[trigger] parts[i] != up() {
            assert forall|i: int| 0 <= i < front.len() implies #[trigger] front[i] != up() by {
                assert(parts[i] != up());
            }
            assert(parts[parts.len() - 1] != up());
            assert(front.push(parts.last()) =~= parts);
        }
    }
    if more.len() > 0 {
        let front = more.drop_last();
        law_walks_follow_their_steps(parts, front, step);
        assert((parts + more).drop_last() =~= parts + front);
        if walk(parts) is Some && forall|i: int| 0 <= i < more.len() ==> #[trigger] more[i] != up() {
            assert forall|i: int| 0 <= i < front.len() implies #[trigger] front[i] != up() by {
                assert(more[i] != up());
            }
            assert(more[more.len() - 1] != up());
            assert((walk(parts)->0 + front).push(more.last()) =~= walk(parts)->0 + more);
        }
    } else {
        assert(parts + more =~= parts);
        if walk(parts) is Some {
            assert(walk(parts)->0 + more =~= walk(parts)->0);
        }
    }
}

/// A vault is found in the nearest directory with a marker, if there is one.
pub proof fn law_the_nearest_marker_wins(candidates: Seq<Candidate>)
    ensures
        match first_marked(candidates) {
            Some(i) => 0 <= i < candidates.len() && candidates[i].has_marker && forall|j: int|
                0 <= j < i ==> !(#[trigger] candidates[j]).has_marker,
            None => forall|j: int| 0 <= j < candidates.len() ==> !(
            #[trigger] candidates[j]).has_marker,
        },
    decreases candidates.len(),
{
    if candidates.len() > 0 {
        let front = candidates.drop_last();
        law_the_nearest_marker_wins(front);
        match first_marked(front) {
            Some(i) => {
                assert forall|j: int| 0 <= j < i implies !(#[trigger] candidates[j]).has_marker by {
                    assert(!front[j].has_marker);
                }
            },
            None => {
                assert forall|j: int| 0 <= j < front.len() implies !(
                #[trigger] candidates[j]).has_marker by {
                    assert(!front[j].has_marker);
                }
            },
        }
    }
}

/// The directories above a path are all of them, each without the last step of the one
/// before it, from the path itself to the root.
pub proof fn law_all_directories_above_are_looked_at(parts: Seq<Seq<char>>, i: int)
    requires
        0 <= i <= parts.len(),
    ensures
        ancestors(parts).len() == parts.len() + 1,
        ancestors(parts)[i] == path_under(seq!['/'], parts.take(parts.len() - i)),
    decreases parts.len(),
{
    assert(parts.take(parts.len() as int) =~= parts);
    if parts.len() > 0 {
        let front = parts.drop_last();
        if i > 0 {
            law_all_directories_above_are_looked_at(front, i - 1);
            assert(front.take(front.len() - (i - 1)) =~= parts.take(parts.len() - i));
        } else {
            law_all_directories_above_are_looked_at(front, 0);
        }
    }
}

/// A path is refused as a full one exactly if it begins with a slash. Any other is let
/// through exactly if its steps can be walked from the root of the vault, and leads to where
/// they do.
pub proof fn law_full_paths_are_refused(rest: Seq<char>, relative: Seq<char>)
    requires
        relative.len() == 0 || relative[0] != '/',
    ensures
        sandboxed(seq!['/'] + rest) == Err::<Seq<Seq<char>>, SandboxError>(SandboxError::Absolute),
        sandboxed(relative) != Err::<Seq<Seq<char>>, SandboxError>(SandboxError::Absolute),
        sandboxed(relative) is Ok <==> walk(steps(relative)) is Some,
        sandboxed(relative) is Ok ==> sandboxed(relative)->Ok_0 == walk(steps(relative))->0,
{
    assert((seq!['/'] + rest)[0] == '/');
}

/// How many of the steps lead up.
pub open spec fn climbs(parts: Seq<Seq<char>>) -> nat {
    parts.filter(|step: Seq<char>| step == up()).len()
}

/// Steps can be walked exactly if at no point more of them have led up than down; then they
/// end as many steps below the start as more of them led down than up.
pub proof fn law_a_walk_never_climbs_above_its_start(parts: Seq<Seq<char>>)
    ensures
        walk(parts) is Some <==> forall|k: int|
            0 <= k <= parts.len() ==> 2 * climbs(#[trigger] parts.take(k)) <= k,
        walk(parts) is Some ==> walk(parts)->0.len() + 2 * climbs(parts) == parts.len(),
    decreases parts.len(),
{
    reveal(Seq::filter);
    assert(parts.take(parts.len() as int) =~= parts);
    if parts.len() == 0 {
        assert(walk(parts)->0.len() == 0);
    } else {
        let front = parts.drop_last();
        law_a_walk_never_climbs_above_its_start(front);
        let up_now: nat = if parts.last() == up() {
            1
        } else {
            0
        };
        assert(climbs(parts) == climbs(front) + up_now);
        assert forall|k: int| 0 <= k < parts.len() implies parts.take(k) == #[trigger] front.take(
            k,
        ) by {
            assert(parts.take(k) =~= front.take(k));
        }
        if walk(front) is None {
            let k = choose|k: int|
                0 <= k <= front.len() && !(2 * climbs(#[trigger] front.take(k)) <= k);
            assert(parts.take(k) == front.take(k));
            assert(2 * climbs(parts.take(k)) > k);
        } else if walk(parts) is None {
            assert(2 * climbs(parts.take(parts.len() as int)) > parts.len());
        } else {
            assert forall|k: int| 0 <= k <= parts.len() implies 2 * climbs(#[trigger] parts.take(k))
                <= k by {
                if k < parts.len() {
                    assert(parts.take(k) == front.take(k));
                }
            }
        }
    }
}

} // verus!
