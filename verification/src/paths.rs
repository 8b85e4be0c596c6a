//! Paths as slash-separated text.

use vstd::prelude::*;

use crate::text::{
    chars_of, forward_slashes, join, joined, opt_view, text_eq, text_of, text_slice,
    to_forward_slashes, views,
};

verus! {

/// `s` cut at every `c`: the text before the first, between each and the next,
/// and after the last.
pub open spec fn pieces(s: Seq<char>, c: char) -> Seq<Seq<char>>
    decreases s.len(),
{
    if s.len() == 0 {
        seq![seq![]]
    } else {
        let front = pieces(s.drop_last(), c);
        if s.last() == c {
            front.push(seq![])
        } else {
            front.drop_last().push(front.last().push(s.last()))
        }
    }
}

/// Cutting gives at least one piece, none of which holds `c`.
pub proof fn lemma_pieces(s: Seq<char>, c: char)
    ensures
        pieces(s, c).len() > 0,
        forall|i: int| 0 <= i < pieces(s, c).len() ==> !(#[trigger] pieces(s, c)[i]).contains(c),
    decreases s.len(),
{
    if s.len() > 0 {
        let front = pieces(s.drop_last(), c);
        lemma_pieces(s.drop_last(), c);
        assert forall|i: int| 0 <= i < pieces(s, c).len() implies !(
        #[trigger] pieces(s, c)[i]).contains(c) by {
            if i < front.len() - 1 || s.last() == c && i < front.len() {
                assert(pieces(s, c)[i] == front[i]);
            } else if s.last() != c {
                assert(!front.last().contains(c));
                let p = front.last().push(s.last());
                assert forall|k: int| 0 <= k < p.len() implies p[k] != c by {
                    if k < front.last().len() {
                        assert(p[k] == front.last()[k]);
                    }
                }
            }
        }
    }
}

/// `s` cut at every `c`.
pub fn pieces_of(s: &str, c: char) -> (r: Vec<String>)
    ensures
        views(r@) == pieces(s@, c),
{
    let cs = chars_of(s);
    let mut out: Vec<String> = Vec::new();
    let mut cur: Vec<char> = Vec::new();
    let mut i: usize = 0;
    assert(views(out@).push(cur@) =~= pieces(s@.take(0), c));
    while i < cs.len()
        invariant
            i <= cs@.len(),
            cs@ == s@,
            views(out@).push(cur@) == pieces(s@.take(i as int), c),
        decreases cs@.len() - i,
    {
        let ghost before = out@;
        let ghost piece = cur@;
        proof {
            assert(s@.take(i + 1).drop_last() =~= s@.take(i as int));
            assert(views(before).push(piece).drop_last() =~= views(before));
        }
        if cs[i] == c {
            let text = text_of(&cur);
            out.push(text);
            cur = Vec::new();
            proof {
                assert(views(out@) =~= views(before).push(piece));
            }
        } else {
            cur.push(cs[i]);
        }
        i += 1;
    }
    let ghost before = out@;
    let text = text_of(&cur);
    out.push(text);
    proof {
        assert(s@.take(s@.len() as int) =~= s@);
        assert(views(out@) =~= views(before).push(cur@));
    }
    out
}

/// `.`
pub open spec fn here() -> Seq<char> {
    seq!['.']
}

/// `..`
pub open spec fn up() -> Seq<char> {
    seq!['.', '.']
}

/// Whether a piece of a path names a step: neither empty nor `.`.
pub open spec fn is_step(piece: Seq<char>) -> bool {
    piece.len() > 0 && piece != here()
}

/// The steps of a path: its pieces between slashes, without the empty ones and
/// without `.`.
pub open spec fn steps(path: Seq<char>) -> Seq<Seq<char>> {
    pieces(path, '/').filter(|p: Seq<char>| is_step(p))
}

/// Whether a piece of a path names a step.
pub fn names_step(piece: &str) -> (r: bool)
    ensures
        r == is_step(piece@),
{
    proof {
        reveal_strlit(".");
        assert("."@ =~= here());
    }
    !piece.is_empty() && !text_eq(piece, ".")
}

/// Whether a step goes up.
pub fn goes_up(step: &str) -> (r: bool)
    ensures
        r == (step@ == up()),
{
    proof {
        reveal_strlit("..");
        assert(".."@ =~= up());
    }
    text_eq(step, "..")
}

/// The steps of a path.
pub fn steps_of(path: &str) -> (r: Vec<String>)
    ensures
        views(r@) == steps(path@),
{
    let all = pieces_of(path, '/');
    let mut out: Vec<String> = Vec::new();
    let mut i: usize = 0;
    let ghost pred = |p: Seq<char>| is_step(p);
    assert(views(all@).take(0).filter(pred) =~= seq![]) by {
        reveal(Seq::filter);
    }
    assert(views(out@) =~= seq![]);
    while i < all.len()
        invariant
            i <= all@.len(),
            views(all@) == pieces(path@, '/'),
            pred == (|p: Seq<char>| is_step(p)),
            views(out@) == views(all@).take(i as int).filter(pred),
        decreases all@.len() - i,
    {
        let ghost before = out@;
        proof {
            let now = views(all@).take(i + 1);
            assert(now.drop_last() =~= views(all@).take(i as int));
            assert(now.last() == all@[i as int]@);
            reveal(Seq::filter);
        }
        if names_step(all[i].as_str()) {
            out.push(all[i].clone());
            proof {
                assert(views(out@) =~= views(before).push(all@[i as int]@));
            }
        }
        i += 1;
    }
    assert(views(all@).take(all@.len() as int) =~= views(all@));
    out
}

/// The last step of a path, unless it goes up.
pub open spec fn file_name(path: Seq<char>) -> Option<Seq<char>> {
    if steps(path).len() == 0 || steps(path).last() == up() {
        None
    } else {
        Some(steps(path).last())
    }
}

/// The last step of a path, unless it goes up.
pub fn file_name_of(path: &str) -> (r: Option<String>)
    ensures
        (match r {
            Some(s) => Some(s@),
            None => None,
        }) == file_name(path@),
{
    let mut parts = steps_of(path);
    let ghost all = parts@;
    match parts.pop() {
        Some(last) => {
            assert(views(all).last() == last@);
            if goes_up(last.as_str()) {
                None
            } else {
                Some(last)
            }
        },
        None => None,
    }
}

/// The position of the last `c` in `s`.
pub open spec fn last_index(s: Seq<char>, c: char) -> Option<int>
    decreases s.len(),
{
    if s.len() == 0 {
        None
    } else if s.last() == c {
        Some(s.len() - 1)
    } else {
        last_index(s.drop_last(), c)
    }
}

/// The position of the last `c` in `cs`.
pub fn find_last(cs: &Vec<char>, c: char) -> (r: Option<usize>)
    ensures
        match r {
            Some(k) => last_index(cs@, c) == Some(k as int) && k < cs@.len(),
            None => last_index(cs@, c) is None,
        },
{
    let mut k: usize = cs.len();
    assert(cs@.take(k as int) =~= cs@);
    while k > 0
        invariant
            k <= cs@.len(),
            last_index(cs@, c) == last_index(cs@.take(k as int), c),
        decreases k,
    {
        assert(cs@.take(k as int).drop_last() =~= cs@.take(k - 1));
        k -= 1;
        if cs[k] == c {
            return Some(k);
        }
    }
    None
}

/// A file name without its extension: what precedes the last dot, or all of it
/// where there is no dot but at the front.
pub open spec fn stem(name: Seq<char>) -> Seq<char> {
    match last_index(name, '.') {
        Some(k) => if k > 0 {
            name.take(k)
        } else {
            name
        },
        None => name,
    }
}

/// The extension of a file name: what follows the last dot that is not at the
/// front.
pub open spec fn extension(name: Seq<char>) -> Option<Seq<char>> {
    match last_index(name, '.') {
        Some(k) => if k > 0 {
            Some(name.skip(k + 1))
        } else {
            None
        },
        None => None,
    }
}

/// A file name without its extension.
pub fn stem_of(name: &str) -> (r: String)
    ensures
        r@ == stem(name@),
{
    let cs = chars_of(name);
    match find_last(&cs, '.') {
        Some(k) => if k > 0 {
            let t = text_slice(&cs, 0, k);
            assert(t@ =~= name@.take(k as int));
            t
        } else {
            name.to_string()
        },
        None => name.to_string(),
    }
}

/// The extension of a file name.
pub fn extension_of(name: &str) -> (r: Option<String>)
    ensures
        (match r {
            Some(s) => Some(s@),
            None => None,
        }) == extension(name@),
{
    let cs = chars_of(name);
    let n: usize = cs.len();
    match find_last(&cs, '.') {
        Some(k) => if k > 0 {
            let t = text_slice(&cs, k + 1, n);
            assert(t@ =~= name@.skip(k + 1));
            Some(t)
        } else {
            None
        },
        None => None,
    }
}

/// The stem of the file a path names, or nothing where it names none: the slug of
/// a wiki page.
pub open spec fn file_stem(path: Seq<char>) -> Seq<char> {
    match file_name(path) {
        Some(name) => stem(name),
        None => seq![],
    }
}

/// The stem of the file a path names.
pub fn file_stem_of(path: &str) -> (r: String)
    ensures
        r@ == file_stem(path@),
{
    match file_name_of(path) {
        Some(name) => stem_of(name.as_str()),
        None => String::new(),
    }
}

/// The path that leads from `base` over `parts`.
pub open spec fn path_under(base: Seq<char>, parts: Seq<Seq<char>>) -> Seq<char> {
    if parts.len() == 0 {
        base
    } else if base.len() > 0 && base.last() == '/' {
        base + joined(parts, seq!['/'])
    } else {
        base + seq!['/'] + joined(parts, seq!['/'])
    }
}

/// `path` from the directory `base`, unless it is a full path already.
pub open spec fn path_from(base: Seq<char>, path: Seq<char>) -> Seq<char> {
    if path.len() > 0 && path[0] == '/' {
        path
    } else if base.len() == 0 || base.last() == '/' {
        base + path
    } else {
        base + "/"@ + path
    }
}

/// `path` from the directory `base`, unless it is a full path already.
pub fn join_path(base: &str, path: &str) -> (r: String)
    ensures
        r@ == path_from(base@, path@),
{
    let cs = chars_of(path);
    if cs.len() > 0 && cs[0] == '/' {
        return path.to_string();
    }
    let front = chars_of(base);
    let n: usize = front.len();
    let mut s = base.to_string();
    if n > 0 && front[n - 1] != '/' {
        s.append("/");
    }
    s.append(path);
    s
}

/// Whether a path starts at the root of the disk.
pub open spec fn is_full(path: Seq<char>) -> bool {
    path.len() > 0 && path[0] == '/'
}

/// The steps from the directory `root` to `path`, if it lies there.
pub open spec fn steps_below(root: Seq<char>, path: Seq<char>) -> Option<Seq<Seq<char>>> {
    let above = steps(root);
    let all = steps(path);
    if is_full(root) == is_full(path) && above.len() <= all.len() && all.take(above.len() as int)
        == above {
        Some(all.skip(above.len() as int))
    } else {
        None
    }
}

/// The path from the directory `root` to `path`, if it lies there.
pub open spec fn relative(root: Seq<char>, path: Seq<char>) -> Option<Seq<char>> {
    match steps_below(root, path) {
        Some(rest) => Some(forward_slashes(joined(rest, "/"@))),
        None => None,
    }
}

/// The path from the directory `root` to `path`, if it lies there.
pub fn relative_to(root: &str, path: &str) -> (r: Option<String>)
    ensures
        opt_view(r) == relative(root@, path@),
{
    let above = steps_of(root);
    let all = steps_of(path);
    let root_chars = chars_of(root);
    let path_chars = chars_of(path);
    let root_full: bool = root_chars.len() > 0 && root_chars[0] == '/';
    let path_full: bool = path_chars.len() > 0 && path_chars[0] == '/';
    let n: usize = above.len();
    if root_full != path_full || n > all.len() {
        return None;
    }
    let mut i: usize = 0;
    while i < n
        invariant
            i <= n,
            n == above@.len(),
            n <= all@.len(),
            views(above@) == steps(root@),
            views(all@) == steps(path@),
            forall|k: int| 0 <= k < i ==> steps(path@)[k] == #[trigger] steps(root@)[k],
        decreases n - i,
    {
        assert(steps(root@)[i as int] == above@[i as int]@);
        assert(steps(path@)[i as int] == all@[i as int]@);
        if !text_eq(above[i].as_str(), all[i].as_str()) {
            proof {
                if steps(path@).take(n as int) == steps(root@) {
                    assert(steps(path@).take(n as int)[i as int] == steps(root@)[i as int]);
                }
            }
            return None;
        }
        i += 1;
    }
    assert(steps(path@).take(n as int) =~= steps(root@));
    let mut rest: Vec<String> = Vec::new();
    let mut k: usize = n;
    while k < all.len()
        invariant
            n <= k <= all@.len(),
            views(rest@) == views(all@).subrange(n as int, k as int),
        decreases all@.len() - k,
    {
        let ghost before = rest@;
        rest.push(all[k].clone());
        proof {
            assert(views(rest@) =~= views(before).push(all@[k as int]@));
            assert(views(all@).subrange(n as int, k + 1) =~= views(all@).subrange(
                n as int,
                k as int,
            ).push(all@[k as int]@));
        }
        k += 1;
    }
    assert(views(rest@) =~= steps(path@).skip(n as int));
    let text = join(&rest, "/");
    Some(to_forward_slashes(text.as_str()))
}

// ---------------------------------------------------------------------------
// Laws
// ---------------------------------------------------------------------------

/// A text that is cut at every `c` and joined again with `c` is the text it was, and no
/// piece holds a `c`: so every `c` is a cut, and nothing is lost.
pub proof fn law_pieces_make_up_the_text(s: Seq<char>, c: char)
    ensures
        joined(pieces(s, c), seq![c]) == s,
        forall|i: int| 0 <= i < pieces(s, c).len() ==> !(#[trigger] pieces(s, c)[i]).contains(c),
    decreases s.len(),
{
    lemma_pieces(s, c);
    if s.len() > 0 {
        let t = s.drop_last();
        let front = pieces(t, c);
        law_pieces_make_up_the_text(t, c);
        lemma_pieces(t, c);
        if s.last() == c {
            let all = front.push(seq![]);
            assert(all.drop_last() =~= front);
            assert(joined(all, seq![c]) =~= s);
        } else {
            let all = front.drop_last().push(front.last().push(s.last()));
            assert(all.drop_last() =~= front.drop_last());
            if front.len() == 1 {
                assert(front[0] == front.last());
                assert(all[0] == front.last().push(s.last()));
                assert(joined(all, seq![c]) =~= t.push(s.last()));
                assert(t.push(s.last()) =~= s);
            } else {
                let head = joined(front.drop_last(), seq![c]);
                assert(t == head + seq![c] + front.last());
                assert(joined(all, seq![c]) == head + seq![c] + front.last().push(s.last()));
                assert(joined(all, seq![c]) =~= t.push(s.last()));
                assert(t.push(s.last()) =~= s);
            }
        }
    }
}

proof fn lemma_pieces_added(a: Seq<char>, b: Seq<char>, c: char)
    requires
        !b.contains(c),
    ensures
        pieces(a + seq![c] + b, c) == pieces(a, c).push(b),
    decreases b.len(),
{
    let s = a + seq![c] + b;
    if b.len() == 0 {
        assert(s.drop_last() =~= a);
        assert(s.last() == c);
        assert(b =~= seq![]);
        assert(pieces(s, c) =~= pieces(a, c).push(b));
    } else {
        let t = b.drop_last();
        assert(b.contains(b.last()));
        assert(!t.contains(c)) by {
            if t.contains(c) {
                let k = choose|k: int| 0 <= k < t.len() && t[k] == c;
                assert(b[k] == c);
            }
        }
        lemma_pieces_added(a, t, c);
        assert(s.drop_last() =~= a + seq![c] + t);
        assert(s.last() == b.last());
        let front = pieces(a, c).push(t);
        assert(front.drop_last() =~= pieces(a, c));
        assert(front.last() == t);
        assert(t.push(b.last()) =~= b);
        assert(pieces(s, c) =~= pieces(a, c).push(b));
    }
}

/// The name of a file is what follows the last slash of its path, whatever the directory.
pub proof fn law_a_file_name_is_the_last_step(dir: Seq<char>, name: Seq<char>)
    requires
        name.len() > 0,
        !name.contains('/'),
        name != here(),
        name != up(),
    ensures
        file_name(dir + seq!['/'] + name) == Some(name),
        steps(dir + seq!['/'] + name) == steps(dir).push(name),
        file_stem(dir + seq!['/'] + name) == stem(name),
{
    let path = dir + seq!['/'] + name;
    let f = |p: Seq<char>| is_step(p);
    lemma_pieces_added(dir, name, '/');
    reveal(Seq::filter);
    assert(pieces(dir, '/').push(name).drop_last() =~= pieces(dir, '/'));
    assert(f(name));
    assert(steps(path) =~= steps(dir).push(name));
}

proof fn lemma_last_index(s: Seq<char>, c: char)
    ensures
        match last_index(s, c) {
            Some(k) => 0 <= k < s.len() && s[k] == c && forall|j: int|
                k < j < s.len() ==> #[trigger] s[j] != c,
            None => forall|j: int| 0 <= j < s.len() ==> #[trigger] s[j] != c,
        },
    decreases s.len(),
{
    if s.len() > 0 && s.last() != c {
        lemma_last_index(s.drop_last(), c);
        let t = s.drop_last();
        assert forall|j: int| 0 <= j < t.len() implies t[j] == s[j] by {}
        match last_index(t, c) {
            Some(k) => {
                assert forall|j: int| k < j < s.len() implies #[trigger] s[j] != c by {
                    if j < t.len() {
                        assert(t[j] != c);
                    }
                }
            },
            None => {
                assert forall|j: int| 0 <= j < s.len() implies #[trigger] s[j] != c by {
                    if j < t.len() {
                        assert(t[j] != c);
                    }
                }
            },
        }
    }
}

/// A file name is its stem, a dot and its extension, which holds no dot; or its stem alone.
/// A name with something on both sides of its last dot has an extension.
pub proof fn law_a_file_name_is_its_stem_and_its_extension(
    name: Seq<char>,
    before: Seq<char>,
    after: Seq<char>,
)
    ensures
        extension(name) is Some ==> name == stem(name) + seq!['.'] + extension(name)->0
            && stem(name).len() > 0 && !extension(name)->0.contains('.'),
        extension(name) is None ==> stem(name) == name,
        before.len() > 0 && !after.contains('.') ==> stem(before + seq!['.'] + after) == before
            && extension(before + seq!['.'] + after) == Some(after),
{
    lemma_last_index(name, '.');
    if extension(name) is Some {
        let k = last_index(name, '.')->0;
        assert(name =~= name.take(k) + seq!['.'] + name.skip(k + 1));
        if extension(name)->0.contains('.') {
            let rest = name.skip(k + 1);
            let j = choose|j: int| 0 <= j < rest.len() && rest[j] == '.';
            assert(name[k + 1 + j] == '.');
        }
    }
    if before.len() > 0 && !after.contains('.') {
        let whole = before + seq!['.'] + after;
        let n = before.len() as int;
        lemma_last_index(whole, '.');
        assert(whole[n] == '.');
        let k = last_index(whole, '.')->0;
        if k > n {
            assert(after[k - n - 1] == '.');
        }
        assert(k == n);
        assert(whole.take(n) =~= before);
        assert(whole.skip(n + 1) =~= after);
    }
}

proof fn lemma_pieces_of_two(a: Seq<char>, b: Seq<char>, c: char)
    ensures
        pieces(a + seq![c] + b, c) == pieces(a, c) + pieces(b, c),
    decreases b.len(),
{
    let s = a + seq![c] + b;
    lemma_pieces(b, c);
    if b.len() == 0 {
        assert(s.drop_last() =~= a);
        assert(s.last() == c);
        assert(pieces(s, c) =~= pieces(a, c) + pieces(b, c));
    } else {
        let t = b.drop_last();
        lemma_pieces_of_two(a, t, c);
        lemma_pieces(t, c);
        assert(s.drop_last() =~= a + seq![c] + t);
        assert(s.last() == b.last());
        let front = pieces(a, c) + pieces(t, c);
        assert(front.drop_last() =~= pieces(a, c) + pieces(t, c).drop_last());
        assert(front.last() == pieces(t, c).last());
        assert(pieces(s, c) =~= pieces(a, c) + pieces(b, c));
    }
}

/// The steps of a path below a directory are those of the directory and then those that lead
/// on from there.
pub proof fn law_steps_lead_on_from_a_directory(dir: Seq<char>, path: Seq<char>)
    ensures
        steps(dir + seq!['/'] + path) == steps(dir) + steps(path),
{
    lemma_pieces_of_two(dir, path, '/');
    Seq::filter_distributes_over_add(
        pieces(dir, '/'),
        pieces(path, '/'),
        |p: Seq<char>| is_step(p),
    );
}

/// What lies below a directory is seen from there, by the steps that lead on from it; what
/// does not lie there is not.
pub proof fn law_what_lies_below_is_seen_from_there(root: Seq<char>, path: Seq<char>)
    requires
        root.len() > 0,
    ensures
        relative(root, root + seq!['/'] + path) == Some(
            forward_slashes(joined(steps(path), "/"@)),
        ),
        relative(root, path) is Some ==> steps(root).len() <= steps(path).len() && steps(path).take(
            steps(root).len() as int,
        ) == steps(root),
{
    law_steps_lead_on_from_a_directory(root, path);
    let all = steps(root) + steps(path);
    let n = steps(root).len() as int;
    assert(all.take(n) =~= steps(root));
    assert(all.skip(n) =~= steps(path));
    assert((root + seq!['/'] + path)[0] == root[0]);
}

/// What lies below a directory is seen from there by its own steps: a path lies there exactly
/// if both are full paths or neither is, and the steps of the directory are the first of its
/// own.
pub proof fn law_a_path_lies_below_where_its_first_steps_lead(root: Seq<char>, path: Seq<char>)
    ensures
        relative(root, path) is Some <==> ((root.len() > 0 && root[0] == '/') <==> (path.len() > 0
            && path[0] == '/')) && exists|rest: Seq<Seq<char>>|
            steps(path) == #[trigger] (steps(root) + rest),
        relative(path, path) == Some(Seq::<char>::empty()),
{
    let above = steps(root);
    let all = steps(path);
    if relative(root, path) is Some {
        let rest = all.skip(above.len() as int);
        assert(all =~= above + rest);
    }
    if exists|rest: Seq<Seq<char>>| all == #[trigger] (above + rest) {
        let rest = choose|rest: Seq<Seq<char>>| all == #[trigger] (above + rest);
        assert(all.take(above.len() as int) =~= above);
    }
    assert(all.take(all.len() as int) =~= all);
    assert(all.skip(all.len() as int) =~= seq![]);
    assert(joined(seq![], "/"@) =~= seq![]);
    assert(forward_slashes(seq![]) =~= Seq::<char>::empty());
}

} // verus!
