//! Text as sequences of characters: the building blocks the rest of the crate
//! states its contracts over.

use vstd::prelude::*;
use vstd::utf8::{char_is_scalar, encode_scalar, encode_utf8};

verus! {

/// Appends one character, as `String::push` documents.
pub assume_specification[ String::push ](s: &mut String, c: char)
    ensures
        final(s)@ == old(s)@.push(c),
;

/// Two string slices are equal when they hold the same characters, as the
/// comparison of `str` documents.
pub assume_specification[ <str as PartialEq>::eq ](a: &str, b: &str) -> (r: bool)
    ensures
        r == (a@ == b@),
;

/// The views of the elements, in order.
pub open spec fn views<T: View>(s: Seq<T>) -> Seq<T::V> {
    s.map_values(|t: T| t@)
}

/// The views of an optional value.
pub open spec fn opt_view<T: View>(o: Option<T>) -> Option<T::V> {
    match o {
        Some(t) => Some(t@),
        None => None,
    }
}

/// The code point of a character.
pub fn code_point(c: char) -> (r: u32)
    ensures
        r as int == c as int,
{
    c as u32
}

/// The characters of `s`, in order.
pub fn chars_of(s: &str) -> (r: Vec<char>)
    ensures
        r@ == s@,
{
    let mut out: Vec<char> = Vec::new();
    for c in it: s.chars()
        invariant
            out@ == it.seq().take(it.index()),
            it.seq() == s@,
    {
        out.push(c);
    }
    out
}

/// The text spelled by `cs[from..to]`.
pub fn text_slice(cs: &Vec<char>, from: usize, to: usize) -> (r: String)
    requires
        from <= to <= cs@.len(),
    ensures
        r@ == cs@.subrange(from as int, to as int),
{
    let mut out = String::new();
    let mut i: usize = from;
    while i < to
        invariant
            from <= i <= to <= cs@.len(),
            out@ == cs@.subrange(from as int, i as int),
        decreases to - i,
    {
        out.push(cs[i]);
        i += 1;
    }
    out
}

/// The text spelled by all of `cs`.
pub fn text_of(cs: &Vec<char>) -> (r: String)
    ensures
        r@ == cs@,
{
    text_slice(cs, 0, cs.len())
}

/// Whether two texts are the same.
pub fn text_eq(a: &str, b: &str) -> (r: bool)
    ensures
        r == (a@ == b@),
{
    *a == *b
}

/// Whether two optional texts are the same.
pub fn opt_text_eq(a: &Option<String>, b: &Option<String>) -> (r: bool)
    ensures
        r == (opt_view(*a) == opt_view(*b)),
{
    match (a, b) {
        (Some(x), Some(y)) => text_eq(x.as_str(), y.as_str()),
        (None, None) => true,
        _ => false,
    }
}

/// A copy of an optional text.
pub fn copy_opt(a: &Option<String>) -> (r: Option<String>)
    ensures
        r == *a,
{
    match a {
        Some(x) => Some(x.clone()),
        None => None,
    }
}

/// JSON, with `null` for what is not there.
pub open spec fn json_or_null(json: Option<Seq<char>>) -> Seq<char> {
    match json {
        Some(text) => text,
        None => "null"@,
    }
}

/// JSON, with `null` for what is not there.
pub fn or_null(json: Option<String>) -> (r: String)
    ensures
        r@ == json_or_null(opt_view(json)),
{
    match json {
        Some(text) => text,
        None => "null".to_string(),
    }
}

/// A copy of a list of texts.
pub fn copy_texts(v: &Vec<String>) -> (r: Vec<String>)
    ensures
        r@ == v@,
{
    let mut out: Vec<String> = Vec::new();
    let mut i: usize = 0;
    while i < v.len()
        invariant
            i <= v@.len(),
            out@ == v@.take(i as int),
        decreases v@.len() - i,
    {
        out.push(v[i].clone());
        i += 1;
    }
    out
}

/// Where `s` first stands in `v`, if it does.
pub fn position_of(v: &Vec<String>, s: &str) -> (r: Option<usize>)
    ensures
        match r {
            Some(k) => k < v@.len() && v@[k as int]@ == s@ && (forall|j: int|
                0 <= j < k ==> (#[trigger] v@[j])@ != s@),
            None => forall|j: int| 0 <= j < v@.len() ==> (#[trigger] v@[j])@ != s@,
        },
{
    let mut i: usize = 0;
    while i < v.len()
        invariant
            i <= v@.len(),
            forall|j: int| 0 <= j < i ==> (#[trigger] v@[j])@ != s@,
        decreases v@.len() - i,
    {
        if text_eq(v[i].as_str(), s) {
            return Some(i);
        }
        i += 1;
    }
    None
}

/// Whether `s` stands in `v`.
pub fn has_text(v: &Vec<String>, s: &str) -> (r: bool)
    ensures
        r == views(v@).contains(s@),
{
    match position_of(v, s) {
        Some(k) => {
            proof {
                assert(views(v@)[k as int] == s@);
            }
            true
        },
        None => {
            proof {
                assert forall|j: int| 0 <= j < views(v@).len() implies views(v@)[j] != s@ by {
                    assert(v@[j]@ != s@);
                }
            }
            false
        },
    }
}

// ---------------------------------------------------------------------------
// White space
// ---------------------------------------------------------------------------

/// The characters with the Unicode `White_Space` property, which
/// `char::is_whitespace` recognises.
pub open spec fn is_white(c: char) -> bool {
    ||| 0x09 <= c as u32 <= 0x0d
    ||| c as u32 == 0x20
    ||| c as u32 == 0x85
    ||| c as u32 == 0xa0
    ||| c as u32 == 0x1680
    ||| 0x2000 <= c as u32 <= 0x200a
    ||| c as u32 == 0x2028
    ||| c as u32 == 0x2029
    ||| c as u32 == 0x202f
    ||| c as u32 == 0x205f
    ||| c as u32 == 0x3000
}

/// Whether `c` is white space.
pub fn white(c: char) -> (r: bool)
    ensures
        r == is_white(c),
{
    let u: u32 = c as u32;
    (0x09 <= u && u <= 0x0d) || u == 0x20 || u == 0x85 || u == 0xa0 || u == 0x1680 || (0x2000 <= u
        && u <= 0x200a) || u == 0x2028 || u == 0x2029 || u == 0x202f || u == 0x205f || u == 0x3000
}

/// `s` without its leading white space.
pub open spec fn trim_start(s: Seq<char>) -> Seq<char>
    decreases s.len(),
{
    if s.len() > 0 && is_white(s[0]) {
        trim_start(s.skip(1))
    } else {
        s
    }
}

/// `s` without its trailing white space.
pub open spec fn trim_end(s: Seq<char>) -> Seq<char>
    decreases s.len(),
{
    if s.len() > 0 && is_white(s.last()) {
        trim_end(s.drop_last())
    } else {
        s
    }
}

/// `s` without the white space around it.
pub open spec fn trim(s: Seq<char>) -> Seq<char> {
    trim_end(trim_start(s))
}

/// Trimming takes white space off both ends of a text and nothing else.
pub proof fn law_trimming_takes_white_space_off_the_ends(s: Seq<char>)
    ensures
        exists|a: int, b: int|
            0 <= a <= b <= s.len() && #[trigger] s.subrange(a, b) == trim(s) && (forall|i: int|
                0 <= i < a || b <= i < s.len() ==> is_white(#[trigger] s[i])),
        trim(s).len() > 0 ==> !is_white(trim(s)[0]) && !is_white(trim(s).last()),
{
    let t = trim_start(s);
    lemma_trim_start(s);
    lemma_trim_end(t);
    let a = s.len() - t.len();
    let b = a + trim(s).len();
    assert(s.subrange(a, b) =~= trim(s));
    assert forall|i: int| 0 <= i < a || b <= i < s.len() implies is_white(#[trigger] s[i]) by {
        if i >= b {
            assert(t[i - a] == s[i]);
        }
    }
    if trim(s).len() > 0 {
        assert(trim(s)[0] == t[0]);
    }
}

/// A text with nothing but white space around it, and none at its own ends, is what is left
/// of trimming.
pub proof fn lemma_trim_is(a: Seq<char>, s: Seq<char>, b: Seq<char>)
    requires
        s.len() > 0,
        !is_white(s[0]) && !is_white(s.last()),
        forall|i: int| 0 <= i < a.len() ==> is_white(#[trigger] a[i]),
        forall|i: int| 0 <= i < b.len() ==> is_white(#[trigger] b[i]),
    ensures
        trim(a + s + b) == s,
    decreases a.len() + b.len(),
{
    let whole = a + s + b;
    if a.len() > 0 {
        assert(is_white(a[0]));
        let rest = a.skip(1);
        assert forall|i: int| 0 <= i < rest.len() implies is_white(#[trigger] rest[i]) by {
            assert(is_white(a[i + 1]));
        }
        assert(whole.skip(1) =~= rest + s + b);
        assert(whole[0] == a[0]);
        lemma_trim_is(rest, s, b);
    } else {
        assert(whole =~= s + b);
        assert(whole[0] == s[0]);
        lemma_trim_end_is(s, b);
    }
}

proof fn lemma_trim_end_is(s: Seq<char>, b: Seq<char>)
    requires
        s.len() > 0,
        !is_white(s.last()),
        forall|i: int| 0 <= i < b.len() ==> is_white(#[trigger] b[i]),
    ensures
        trim_end(s + b) == s,
    decreases b.len(),
{
    if b.len() == 0 {
        assert(s + b =~= s);
    } else {
        let front = b.drop_last();
        assert(is_white(b[b.len() - 1]));
        assert forall|i: int| 0 <= i < front.len() implies is_white(#[trigger] front[i]) by {
            assert(is_white(b[i]));
        }
        assert((s + b).drop_last() =~= s + front);
        lemma_trim_end_is(s, front);
    }
}

proof fn lemma_trim_start(s: Seq<char>)
    ensures
        trim_start(s).len() <= s.len(),
        trim_start(s) == s.skip(s.len() - trim_start(s).len()),
        forall|i: int| 0 <= i < s.len() - trim_start(s).len() ==> is_white(#[trigger] s[i]),
        trim_start(s).len() > 0 ==> !is_white(trim_start(s)[0]),
    decreases s.len(),
{
    if s.len() > 0 && is_white(s[0]) {
        let rest = s.skip(1);
        lemma_trim_start(rest);
        let n = s.len() - trim_start(s).len();
        assert(trim_start(s) =~= s.skip(n));
        assert forall|i: int| 0 <= i < n implies is_white(#[trigger] s[i]) by {
            if i > 0 {
                assert(rest[i - 1] == s[i]);
            }
        }
    } else {
        assert(s.skip(0) =~= s);
    }
}

proof fn lemma_trim_end(s: Seq<char>)
    ensures
        trim_end(s).len() <= s.len(),
        trim_end(s) == s.take(trim_end(s).len() as int),
        forall|i: int| trim_end(s).len() <= i < s.len() ==> is_white(#[trigger] s[i]),
        trim_end(s).len() > 0 ==> !is_white(trim_end(s).last()),
    decreases s.len(),
{
    if s.len() > 0 && is_white(s.last()) {
        let front = s.drop_last();
        lemma_trim_end(front);
        assert(trim_end(s) =~= s.take(trim_end(s).len() as int));
        assert forall|i: int| trim_end(s).len() <= i < s.len() implies is_white(
            #[trigger] s[i],
        ) by {
            if i < front.len() {
                assert(front[i] == s[i]);
            }
        }
    } else {
        assert(s.take(s.len() as int) =~= s);
    }
}

/// The part of `cs[from..to]` that is left once the white space around it is
/// gone.
pub fn trim_range(cs: &Vec<char>, from: usize, to: usize) -> (r: (usize, usize))
    requires
        from <= to <= cs@.len(),
    ensures
        from <= r.0 <= r.1 <= to,
        cs@.subrange(r.0 as int, r.1 as int) == trim(cs@.subrange(from as int, to as int)),
{
    let mut a: usize = from;
    while a < to && white(cs[a])
        invariant
            from <= a <= to <= cs@.len(),
            trim_start(cs@.subrange(from as int, to as int)) == trim_start(
                cs@.subrange(a as int, to as int),
            ),
        decreases to - a,
    {
        proof {
            assert(cs@.subrange(a as int, to as int).skip(1) =~= cs@.subrange(a + 1, to as int));
        }
        a += 1;
    }
    let ghost mid = cs@.subrange(a as int, to as int);
    assert(trim_start(cs@.subrange(from as int, to as int)) == mid);
    let mut b: usize = to;
    while b > a && white(cs[b - 1])
        invariant
            from <= a <= b <= to <= cs@.len(),
            trim_end(mid) == trim_end(cs@.subrange(a as int, b as int)),
        decreases b,
    {
        proof {
            assert(cs@.subrange(a as int, b as int).drop_last() =~= cs@.subrange(
                a as int,
                b - 1,
            ));
        }
        b -= 1;
    }
    assert(trim_end(mid) == cs@.subrange(a as int, b as int));
    (a, b)
}

/// `s` without the white space around it.
pub fn trimmed(s: &str) -> (r: String)
    ensures
        r@ == trim(s@),
{
    let cs = chars_of(s);
    let (a, b) = trim_range(&cs, 0, cs.len());
    assert(cs@.subrange(0, cs@.len() as int) =~= s@);
    text_slice(&cs, a, b)
}

/// Whether `s` holds nothing but white space.
pub fn is_blank(s: &str) -> (r: bool)
    ensures
        r == (trim(s@).len() == 0),
{
    let cs = chars_of(s);
    let (a, b) = trim_range(&cs, 0, cs.len());
    assert(cs@.subrange(0, cs@.len() as int) =~= s@);
    a == b
}

// ---------------------------------------------------------------------------
// Prefixes, suffixes, searching
// ---------------------------------------------------------------------------

/// Whether `pat` stands in `s` at position `i`.
pub open spec fn occurs_at(s: Seq<char>, pat: Seq<char>, i: int) -> bool {
    0 <= i && i + pat.len() <= s.len() && s.subrange(i, i + pat.len()) == pat
}

/// Whether `pat` stands anywhere in `s`.
pub open spec fn has_part(s: Seq<char>, pat: Seq<char>) -> bool {
    exists|i: int| #[trigger] occurs_at(s, pat, i)
}

/// Whether `s` begins with `pat`.
pub open spec fn has_prefix(s: Seq<char>, pat: Seq<char>) -> bool {
    occurs_at(s, pat, 0)
}

/// Whether `s` ends with `pat`.
pub open spec fn has_suffix(s: Seq<char>, pat: Seq<char>) -> bool {
    occurs_at(s, pat, s.len() - pat.len())
}

/// The first position from `from` on at which `pat` stands in `s`.
pub open spec fn find_from(s: Seq<char>, pat: Seq<char>, from: int) -> Option<int>
    decreases s.len() + 1 - from,
{
    if from < 0 || from + pat.len() > s.len() {
        None
    } else if occurs_at(s, pat, from) {
        Some(from)
    } else {
        find_from(s, pat, from + 1)
    }
}

/// What `find_from` finds is an occurrence, and none stands before it; where it
/// finds nothing there is none.
pub proof fn lemma_find_from(s: Seq<char>, pat: Seq<char>, from: int)
    requires
        0 <= from,
    ensures
        match find_from(s, pat, from) {
            Some(k) => from <= k && occurs_at(s, pat, k) && (forall|j: int|
                from <= j < k ==> !#[trigger] occurs_at(s, pat, j)),
            None => forall|j: int| from <= j ==> !#[trigger] occurs_at(s, pat, j),
        },
    decreases s.len() + 1 - from,
{
    if from + pat.len() > s.len() {
    } else if occurs_at(s, pat, from) {
    } else {
        lemma_find_from(s, pat, from + 1);
    }
}

/// A search stops at the first place where the first character of `pat` stands, if `pat`
/// stands there, and finds nothing where that character is missing.
pub proof fn lemma_found_at_first_char(s: Seq<char>, pat: Seq<char>, from: int, k: int)
    requires
        0 <= from <= k,
        pat.len() > 0,
        forall|j: int| from <= j < k && j < s.len() ==> #[trigger] s[j] != pat[0],
        occurs_at(s, pat, k) || k >= s.len(),
    ensures
        find_from(s, pat, from) == (if k < s.len() {
            Some(k)
        } else {
            None
        }),
    decreases k - from,
{
    if from < k && from + pat.len() <= s.len() {
        if occurs_at(s, pat, from) {
            assert(s.subrange(from, from + pat.len())[0] == s[from]);
        }
        lemma_found_at_first_char(s, pat, from + 1, k);
    }
}

/// A search finds the first occurrence.
pub proof fn lemma_found_first(s: Seq<char>, pat: Seq<char>, from: int, k: int)
    requires
        0 <= from <= k,
        occurs_at(s, pat, k),
        forall|j: int| from <= j < k ==> !#[trigger] occurs_at(s, pat, j),
    ensures
        find_from(s, pat, from) == Some(k),
    decreases k - from,
{
    if from < k {
        assert(!occurs_at(s, pat, from));
        lemma_found_first(s, pat, from + 1, k);
    }
}

/// What is found in `a` is found in `a + b` at the same place.
pub proof fn lemma_find_in_front(a: Seq<char>, b: Seq<char>, pat: Seq<char>, from: int)
    requires
        0 <= from,
        find_from(a, pat, from) is Some,
    ensures
        find_from(a + b, pat, from) == find_from(a, pat, from),
    decreases a.len() + 1 - from,
{
    let whole = a + b;
    assert(whole.subrange(from, from + pat.len()) =~= a.subrange(from, from + pat.len()));
    if !occurs_at(a, pat, from) {
        lemma_find_in_front(a, b, pat, from + 1);
    }
}

/// A text stands in every text that it is put into, and so does what stands in it.
pub proof fn lemma_part(a: Seq<char>, s: Seq<char>, b: Seq<char>, pat: Seq<char>)
    requires
        has_part(s, pat),
    ensures
        has_part(a + s + b, pat),
        has_part(s + b, pat),
        has_part(a + s, pat),
{
    let i = choose|i: int| #[trigger] occurs_at(s, pat, i);
    assert((a + s + b).subrange(a.len() + i, a.len() + i + pat.len()) =~= s.subrange(
        i,
        i + pat.len(),
    ));
    assert(occurs_at(a + s + b, pat, a.len() + i));
    assert((s + b).subrange(i, i + pat.len()) =~= s.subrange(i, i + pat.len()));
    assert(occurs_at(s + b, pat, i));
    assert((a + s).subrange(a.len() + i, a.len() + i + pat.len()) =~= s.subrange(
        i,
        i + pat.len(),
    ));
    assert(occurs_at(a + s, pat, a.len() + i));
}

/// A text stands in itself.
pub proof fn lemma_part_of_itself(s: Seq<char>)
    ensures
        has_part(s, s),
{
    assert(s.subrange(0, s.len() as int) =~= s);
    assert(occurs_at(s, s, 0));
}

/// Whether `pat` stands in `s` at position `i`.
pub fn stands_at(s: &Vec<char>, pat: &Vec<char>, i: usize) -> (r: bool)
    ensures
        r == occurs_at(s@, pat@, i as int),
{
    let n: usize = s.len();
    if i > n || pat.len() > n - i {
        return false;
    }
    let mut k: usize = 0;
    while k < pat.len()
        invariant
            k <= pat@.len(),
            i + pat@.len() <= n == s@.len(),
            forall|j: int| 0 <= j < k ==> s@[i + j] == pat@[j],
        decreases pat@.len() - k,
    {
        if s[i + k] != pat[k] {
            proof {
                assert(s@.subrange(i as int, i + pat@.len())[k as int] != pat@[k as int]);
            }
            return false;
        }
        k += 1;
    }
    assert(s@.subrange(i as int, i + pat@.len()) =~= pat@);
    true
}

/// The first position from `from` on at which `pat` stands in `s`.
pub fn find_at(s: &Vec<char>, pat: &Vec<char>, from: usize) -> (r: Option<usize>)
    ensures
        match r {
            Some(k) => find_from(s@, pat@, from as int) == Some(k as int) && from <= k && k
                + pat@.len() <= s@.len() && occurs_at(s@, pat@, k as int),
            None => find_from(s@, pat@, from as int) is None,
        },
{
    let mut i: usize = from;
    while i <= s.len() && pat.len() <= s.len() - i
        invariant
            from <= i,
            find_from(s@, pat@, from as int) == find_from(s@, pat@, i as int),
        decreases s@.len() + 1 - i,
    {
        if stands_at(s, pat, i) {
            return Some(i);
        }
        proof {
            // An empty pattern stands everywhere.
            if i == s@.len() {
                assert(s@.subrange(i as int, i + pat@.len()) =~= pat@);
            }
        }
        i += 1;
    }
    None
}

/// Whether `pat` stands anywhere in `s`.
pub fn contains_text(s: &str, pat: &str) -> (r: bool)
    ensures
        r == has_part(s@, pat@),
{
    let cs = chars_of(s);
    let ps = chars_of(pat);
    proof {
        lemma_find_from(s@, pat@, 0);
    }
    match find_at(&cs, &ps, 0) {
        Some(_) => true,
        None => {
            proof {
                assert forall|i: int| !occurs_at(s@, pat@, i) by {
                    if 0 <= i {
                    }
                }
            }
            false
        },
    }
}

/// Whether `s` begins with `pat`.
pub fn starts_with(s: &str, pat: &str) -> (r: bool)
    ensures
        r == has_prefix(s@, pat@),
{
    stands_at(&chars_of(s), &chars_of(pat), 0)
}

/// What follows the prefix `pat`, if `s` begins with it.
pub fn strip_prefix(s: &str, pat: &str) -> (r: Option<String>)
    ensures
        match r {
            Some(t) => has_prefix(s@, pat@) && t@ == s@.skip(pat@.len() as int),
            None => !has_prefix(s@, pat@),
        },
{
    let cs = chars_of(s);
    let ps = chars_of(pat);
    if stands_at(&cs, &ps, 0) {
        let t = text_slice(&cs, ps.len(), cs.len());
        assert(t@ =~= s@.skip(pat@.len() as int));
        Some(t)
    } else {
        None
    }
}

/// What precedes the suffix `pat`, if `s` ends with it.
pub fn strip_suffix(s: &str, pat: &str) -> (r: Option<String>)
    ensures
        match r {
            Some(t) => has_suffix(s@, pat@) && t@ == s@.take(s@.len() - pat@.len()),
            None => !has_suffix(s@, pat@),
        },
{
    let cs = chars_of(s);
    let ps = chars_of(pat);
    if cs.len() >= ps.len() && stands_at(&cs, &ps, cs.len() - ps.len()) {
        let t = text_slice(&cs, 0, cs.len() - ps.len());
        assert(t@ =~= s@.take(s@.len() - pat@.len()));
        Some(t)
    } else {
        None
    }
}

/// The two sides of the first occurrence of `sep` in `s`.
pub open spec fn split_once(s: Seq<char>, sep: Seq<char>) -> Option<(Seq<char>, Seq<char>)> {
    match find_from(s, sep, 0) {
        Some(k) => Some((s.take(k), s.skip(k + sep.len()))),
        None => None,
    }
}

/// The two sides of the first occurrence of `sep` in `s`.
pub fn split_at_first(s: &str, sep: &str) -> (r: Option<(String, String)>)
    ensures
        match r {
            Some((a, b)) => split_once(s@, sep@) == Some((a@, b@)),
            None => split_once(s@, sep@) is None,
        },
{
    let cs = chars_of(s);
    let ps = chars_of(sep);
    match find_at(&cs, &ps, 0) {
        Some(k) => {
            let n: usize = cs.len();
            let a = text_slice(&cs, 0, k);
            let b = text_slice(&cs, k + ps.len(), n);
            assert(a@ =~= s@.take(k as int));
            assert(b@ =~= s@.skip(k + sep@.len()));
            Some((a, b))
        },
        None => None,
    }
}

/// Whether `c` stands in `s`.
pub fn has_char(s: &str, c: char) -> (r: bool)
    ensures
        r == s@.contains(c),
{
    let cs = chars_of(s);
    let mut i: usize = 0;
    while i < cs.len()
        invariant
            i <= cs@.len(),
            cs@ == s@,
            forall|j: int| 0 <= j < i ==> cs@[j] != c,
        decreases cs@.len() - i,
    {
        if cs[i] == c {
            assert(s@[i as int] == c);
            return true;
        }
        i += 1;
    }
    false
}

// ---------------------------------------------------------------------------
// Lines, joining, replacing
// ---------------------------------------------------------------------------

/// A line without the carriage return that ends it, if one does.
pub open spec fn without_cr(s: Seq<char>) -> Seq<char> {
    if s.len() > 0 && s.last() == '\r' {
        s.drop_last()
    } else {
        s
    }
}

/// The position of the first line feed from `from` on, or the end of `s`.
pub open spec fn line_end(s: Seq<char>, from: int) -> int
    decreases s.len() - from,
{
    if from < 0 || from >= s.len() || s[from] == '\n' {
        from
    } else {
        line_end(s, from + 1)
    }
}

/// The lines of `s` from position `from` on, as `str::lines` gives them: a line
/// ends at a line feed or at a carriage return and a line feed, and the text
/// after the last line feed is a line of its own unless it is empty.
pub open spec fn lines_from(s: Seq<char>, from: int) -> Seq<Seq<char>>
    decreases s.len() - from,
    when 0 <= from
    via lines_from_decreases
{
    if from >= s.len() {
        seq![]
    } else {
        let e = line_end(s, from);
        if e >= s.len() {
            seq![s.skip(from)]
        } else {
            seq![without_cr(s.subrange(from, e))] + lines_from(s, e + 1)
        }
    }
}

#[via_fn]
proof fn lines_from_decreases(s: Seq<char>, from: int) {
    if from < s.len() {
        lemma_line_end(s, from);
    }
}

/// `line_end` never goes back, and stops inside `s` only at a line feed.
pub proof fn lemma_line_end(s: Seq<char>, from: int)
    requires
        0 <= from <= s.len(),
    ensures
        from <= line_end(s, from) <= s.len(),
        line_end(s, from) < s.len() ==> s[line_end(s, from)] == '\n',
        forall|j: int| from <= j < line_end(s, from) ==> s[j] != '\n',
    decreases s.len() - from,
{
    if from < s.len() && s[from] != '\n' {
        lemma_line_end(s, from + 1);
    }
}

/// The lines of `s`.
pub open spec fn lines(s: Seq<char>) -> Seq<Seq<char>> {
    lines_from(s, 0)
}

/// The position of the first line feed from `from` on, or the end of `cs`.
pub fn find_line_end(cs: &Vec<char>, from: usize) -> (r: usize)
    requires
        from <= cs@.len(),
    ensures
        r == line_end(cs@, from as int),
        from <= r <= cs@.len(),
        r < cs@.len() ==> cs@[r as int] == '\n',
{
    let mut e: usize = from;
    while e < cs.len() && cs[e] != '\n'
        invariant
            from <= e <= cs@.len(),
            line_end(cs@, from as int) == line_end(cs@, e as int),
        decreases cs@.len() - e,
    {
        e += 1;
    }
    e
}

/// The lines of `s`.
pub fn lines_of(s: &str) -> (r: Vec<String>)
    ensures
        views(r@) == lines(s@),
{
    let cs = chars_of(s);
    let mut out: Vec<String> = Vec::new();
    let mut from: usize = 0;
    while from < cs.len()
        invariant
            from <= cs@.len(),
            cs@ == s@,
            views(out@) + lines_from(s@, from as int) == lines(s@),
        decreases cs@.len() - from,
    {
        let ghost before = out@;
        let e = find_line_end(&cs, from);
        if e >= cs.len() {
            let last = text_slice(&cs, from, cs.len());
            proof {
                assert(last@ =~= s@.skip(from as int));
                assert(lines_from(s@, from as int) =~= seq![last@]);
            }
            out.push(last);
            proof {
                assert(views(out@) =~= views(before) + seq![last@]);
            }
            return out;
        }
        let mut b: usize = e;
        if e > from && cs[e - 1] == '\r' {
            b = e - 1;
        }
        let line = text_slice(&cs, from, b);
        proof {
            let full = s@.subrange(from as int, e as int);
            if e > from && cs@[e - 1] == '\r' {
                assert(full.last() == '\r');
                assert(line@ =~= full.drop_last());
            } else {
                assert(line@ =~= full);
                if e > from {
                    assert(full.last() == cs@[e - 1]);
                }
            }
            assert(line@ == without_cr(full));
            assert(lines_from(s@, from as int) == seq![line@] + lines_from(s@, e + 1));
        }
        out.push(line);
        proof {
            assert(views(out@) =~= views(before) + seq![line@]);
            assert(views(before) + (seq![line@] + lines_from(s@, e + 1)) =~= views(out@)
                + lines_from(s@, e + 1));
        }
        from = e + 1;
    }
    assert(lines_from(s@, from as int) =~= seq![]);
    assert(views(out@) + seq![] =~= views(out@));
    out
}

/// The parts in order, with `sep` between each and the next.
pub open spec fn joined(parts: Seq<Seq<char>>, sep: Seq<char>) -> Seq<char>
    decreases parts.len(),
{
    if parts.len() == 0 {
        seq![]
    } else if parts.len() == 1 {
        parts[0]
    } else {
        joined(parts.drop_last(), sep) + sep + parts.last()
    }
}

/// The parts in order, with `sep` between each and the next.
pub fn join(parts: &Vec<String>, sep: &str) -> (r: String)
    ensures
        r@ == joined(views(parts@), sep@),
{
    let mut out = String::new();
    let mut i: usize = 0;
    while i < parts.len()
        invariant
            i <= parts@.len(),
            out@ == joined(views(parts@.take(i as int)), sep@),
        decreases parts@.len() - i,
    {
        if i > 0 {
            out.append(sep);
        }
        out.append(parts[i].as_str());
        proof {
            let now = views(parts@.take(i + 1));
            assert(now.drop_last() =~= views(parts@.take(i as int)));
            assert(now.last() == parts@[i as int]@);
            if i == 0 {
                assert(out@ =~= parts@[0]@);
            }
        }
        i += 1;
    }
    assert(parts@.take(parts@.len() as int) =~= parts@);
    out
}

/// `s` with every `c` replaced by `by`.
pub open spec fn replaced(s: Seq<char>, c: char, by: Seq<char>) -> Seq<char>
    decreases s.len(),
{
    if s.len() == 0 {
        seq![]
    } else {
        replaced(s.drop_last(), c, by) + (if s.last() == c {
            by
        } else {
            seq![s.last()]
        })
    }
}

/// `s` with every `c` replaced by `by`.
pub fn replace_char(s: &str, c: char, by: &str) -> (r: String)
    ensures
        r@ == replaced(s@, c, by@),
{
    let cs = chars_of(s);
    let mut out = String::new();
    let mut i: usize = 0;
    while i < cs.len()
        invariant
            i <= cs@.len(),
            cs@ == s@,
            out@ == replaced(s@.take(i as int), c, by@),
        decreases cs@.len() - i,
    {
        proof {
            assert(s@.take(i + 1).drop_last() =~= s@.take(i as int));
        }
        if cs[i] == c {
            out.append(by);
        } else {
            out.push(cs[i]);
        }
        i += 1;
    }
    assert(s@.take(s@.len() as int) =~= s@);
    out
}

/// `s` with every backslash turned into a slash, the spelling of paths inside a
/// vault.
pub open spec fn forward_slashes(s: Seq<char>) -> Seq<char> {
    s.map_values(
        |c: char|
            if c == '\\' {
                '/'
            } else {
                c
            },
    )
}

/// `s` with every backslash turned into a slash.
pub fn to_forward_slashes(s: &str) -> (r: String)
    ensures
        r@ == forward_slashes(s@),
{
    let cs = chars_of(s);
    let mut out = String::new();
    let mut i: usize = 0;
    while i < cs.len()
        invariant
            i <= cs@.len(),
            cs@ == s@,
            out@ == forward_slashes(s@.take(i as int)),
        decreases cs@.len() - i,
    {
        if cs[i] == '\\' {
            out.push('/');
        } else {
            out.push(cs[i]);
        }
        proof {
            assert(out@ =~= forward_slashes(s@.take(i + 1)));
        }
        i += 1;
    }
    assert(s@.take(s@.len() as int) =~= s@);
    out
}

// ---------------------------------------------------------------------------
// Numbers
// ---------------------------------------------------------------------------

/// The character for a decimal digit.
pub open spec fn digit(d: nat) -> char {
    ('0' as nat + d) as char
}

/// `n` in decimal.
pub open spec fn decimal(n: nat) -> Seq<char>
    decreases n,
{
    if n < 10 {
        seq![digit(n)]
    } else {
        decimal(n / 10).push(digit(n % 10))
    }
}

fn digit_char(d: u64) -> (r: char)
    requires
        d < 10,
    ensures
        r == digit(d as nat),
{
    match d {
        0 => '0',
        1 => '1',
        2 => '2',
        3 => '3',
        4 => '4',
        5 => '5',
        6 => '6',
        7 => '7',
        8 => '8',
        _ => '9',
    }
}

/// `n` in decimal.
pub fn decimal_text(n: u64) -> (r: String)
    ensures
        r@ == decimal(n as nat),
    decreases n,
{
    let mut out = if n < 10 {
        String::new()
    } else {
        decimal_text(n / 10)
    };
    out.push(digit_char(n % 10));
    out
}

/// Different numbers are written differently.
pub proof fn lemma_decimal_injective(a: nat, b: nat)
    requires
        decimal(a) == decimal(b),
    ensures
        a == b,
    decreases a,
{
    lemma_decimal_len(a);
    lemma_decimal_len(b);
    if a >= 10 && b >= 10 {
        let x = decimal(a / 10);
        let y = decimal(b / 10);
        assert(decimal(a).drop_last() =~= x);
        assert(decimal(b).drop_last() =~= y);
        assert(decimal(a).last() == digit(a % 10));
        assert(decimal(b).last() == digit(b % 10));
        lemma_decimal_injective(a / 10, b / 10);
    } else if a < 10 && b < 10 {
        assert(decimal(a)[0] == digit(a));
        assert(decimal(b)[0] == digit(b));
    } else if a < 10 {
        lemma_decimal_len(b / 10);
    } else {
        lemma_decimal_len(a / 10);
    }
}

proof fn lemma_decimal_len(n: nat)
    ensures
        decimal(n).len() >= 1,
        n >= 10 ==> decimal(n).len() == decimal(n / 10).len() + 1,
    decreases n,
{
    if n >= 10 {
        lemma_decimal_len(n / 10);
    }
}

// ---------------------------------------------------------------------------
// ASCII letters and digits
// ---------------------------------------------------------------------------

/// Whether `c` is an ASCII letter or digit.
pub open spec fn is_alnum(c: char) -> bool {
    ||| 'a' <= c <= 'z'
    ||| 'A' <= c <= 'Z'
    ||| '0' <= c <= '9'
}

/// `c`, an ASCII capital as its small letter.
pub open spec fn lower(c: char) -> char {
    if 'A' <= c <= 'Z' {
        (c as u32 + 32) as char
    } else {
        c
    }
}

/// Whether `c` is an ASCII letter or digit.
pub fn alnum(c: char) -> (r: bool)
    ensures
        r == is_alnum(c),
{
    ('a' <= c && c <= 'z') || ('A' <= c && c <= 'Z') || ('0' <= c && c <= '9')
}

/// `c`, an ASCII capital as its small letter.
pub fn to_lower(c: char) -> (r: char)
    ensures
        r == lower(c),
{
    match c {
        'A' => 'a',
        'B' => 'b',
        'C' => 'c',
        'D' => 'd',
        'E' => 'e',
        'F' => 'f',
        'G' => 'g',
        'H' => 'h',
        'I' => 'i',
        'J' => 'j',
        'K' => 'k',
        'L' => 'l',
        'M' => 'm',
        'N' => 'n',
        'O' => 'o',
        'P' => 'p',
        'Q' => 'q',
        'R' => 'r',
        'S' => 's',
        'T' => 't',
        'U' => 'u',
        'V' => 'v',
        'W' => 'w',
        'X' => 'x',
        'Y' => 'y',
        'Z' => 'z',
        _ => c,
    }
}

/// `s` with its ASCII capitals as small letters.
pub open spec fn lowered(s: Seq<char>) -> Seq<char> {
    s.map_values(|c: char| lower(c))
}

/// `s` with its ASCII capitals as small letters.
pub fn lowercase_ascii(s: &str) -> (r: String)
    ensures
        r@ == lowered(s@),
{
    let cs = chars_of(s);
    let mut out = String::new();
    let mut i: usize = 0;
    while i < cs.len()
        invariant
            i <= cs@.len(),
            cs@ == s@,
            out@ == lowered(s@.take(i as int)),
        decreases cs@.len() - i,
    {
        out.push(to_lower(cs[i]));
        proof {
            assert(out@ =~= lowered(s@.take(i + 1)));
        }
        i += 1;
    }
    assert(s@.take(s@.len() as int) =~= s@);
    out
}

// ---------------------------------------------------------------------------
// Bytes
// ---------------------------------------------------------------------------

/// How many bytes a character takes in UTF-8.
pub open spec fn width(c: char) -> nat {
    if (c as int) < 0x80 {
        1
    } else if (c as int) < 0x800 {
        2
    } else if (c as int) < 0x10000 {
        3
    } else {
        4
    }
}

/// How many bytes a text takes in UTF-8.
pub open spec fn byte_len(s: Seq<char>) -> nat
    decreases s.len(),
{
    if s.len() == 0 {
        0
    } else {
        byte_len(s.drop_last()) + width(s.last())
    }
}

/// How many bytes a character takes in UTF-8.
pub fn width_of(c: char) -> (r: usize)
    ensures
        r == width(c),
{
    let u: u32 = c as u32;
    if u < 0x80 {
        1
    } else if u < 0x800 {
        2
    } else if u < 0x10000 {
        3
    } else {
        4
    }
}

/// A longer prefix takes more bytes.
pub proof fn lemma_byte_len_grows(s: Seq<char>, i: int, j: int)
    requires
        0 <= i <= j <= s.len(),
    ensures
        byte_len(s.take(i)) + (j - i) <= byte_len(s.take(j)),
    decreases j - i,
{
    if i < j {
        lemma_byte_len_grows(s, i, j - 1);
        assert(s.take(j).drop_last() =~= s.take(j - 1));
    }
}

/// The first `n` bytes of `s`, where a character ends there.
pub fn byte_prefix(s: &str, n: usize) -> (r: String)
    requires
        exists|k: int|
            0 <= k <= s@.len() && byte_len(#[trigger] s@.take(k)) == (if byte_len(s@) < n {
                byte_len(s@)
            } else {
                n as nat
            }),
    ensures
        exists|k: int|
            0 <= k <= s@.len() && r@ == (#[trigger] s@.take(k)) && byte_len(r@) == (if byte_len(s@)
                < n {
                byte_len(s@)
            } else {
                n as nat
            }),
{
    let cs = chars_of(s);
    let ghost want = choose|k: int|
        0 <= k <= s@.len() && byte_len(#[trigger] s@.take(k)) == (if byte_len(s@) < n {
            byte_len(s@)
        } else {
            n as nat
        });
    let mut k: usize = 0;
    let mut used: usize = 0;
    assert(s@.take(0) =~= seq![]);
    while k < cs.len() && width_of(cs[k]) <= n - used
        invariant
            k <= cs@.len(),
            cs@ == s@,
            used == byte_len(s@.take(k as int)),
            used <= n,
        decreases cs@.len() - k,
    {
        assert(s@.take(k + 1).drop_last() =~= s@.take(k as int));
        used += width_of(cs[k]);
        k += 1;
    }
    proof {
        assert(s@.take(s@.len() as int) =~= s@);
        if k < want {
            lemma_byte_len_grows(s@, k + 1, want);
            assert(s@.take(k + 1).drop_last() =~= s@.take(k as int));
        } else if want < k {
            lemma_byte_len_grows(s@, want, k as int);
            lemma_byte_len_grows(s@, k as int, s@.len() as int);
        }
        assert(cs@.subrange(0, k as int) =~= s@.take(k as int));
    }
    text_slice(&cs, 0, k)
}

/// A text of ASCII characters has as many bytes as characters.
pub proof fn lemma_ascii_bytes(s: Seq<char>)
    requires
        forall|i: int| 0 <= i < s.len() ==> (#[trigger] s[i] as int) < 0x80,
    ensures
        byte_len(s) == s.len(),
    decreases s.len(),
{
    if s.len() > 0 {
        assert(forall|i: int| 0 <= i < s.drop_last().len() ==> s.drop_last()[i] == s[i]);
        lemma_ascii_bytes(s.drop_last());
        assert((s[s.len() - 1] as int) < 0x80);
    }
}

// ---------------------------------------------------------------------------
// Laws
// ---------------------------------------------------------------------------

/// Joining two lists of texts joins what is joined of each.
pub proof fn law_joining_goes_part_by_part(
    a: Seq<Seq<char>>,
    b: Seq<Seq<char>>,
    part: Seq<char>,
    sep: Seq<char>,
)
    ensures
        joined(seq![], sep) == Seq::<char>::empty(),
        joined(seq![part], sep) == part,
        a.len() > 0 && b.len() > 0 ==> joined(a + b, sep) == joined(a, sep) + sep + joined(b, sep),
    decreases b.len(),
{
    if a.len() > 0 && b.len() > 0 {
        let front = b.drop_last();
        assert((a + b).drop_last() =~= a + front);
        assert((a + b).last() == b.last());
        if front.len() == 0 {
            assert(a + front =~= a);
            assert(b[0] == b.last());
        } else {
            law_joining_goes_part_by_part(a, front, part, sep);
            assert(joined(a, sep) + sep + joined(front, sep) + sep + b.last() =~= joined(a, sep)
                + sep + (joined(front, sep) + sep + b.last()));
        }
    }
}

/// Whatever is joined stands in the result.
pub proof fn law_joined_parts_are_there(parts: Seq<Seq<char>>, sep: Seq<char>, i: int)
    requires
        0 <= i < parts.len(),
    ensures
        has_part(joined(parts, sep), parts[i]),
    decreases parts.len(),
{
    if parts.len() == 1 {
        lemma_part_of_itself(parts[0]);
    } else if i == parts.len() - 1 {
        lemma_part_of_itself(parts[i]);
        lemma_part(joined(parts.drop_last(), sep) + sep, parts[i], seq![], parts[i]);
    } else {
        law_joined_parts_are_there(parts.drop_last(), sep, i);
        let front = joined(parts.drop_last(), sep);
        lemma_part(seq![], front, sep + parts.last(), parts[i]);
        assert(front + (sep + parts.last()) =~= front + sep + parts.last());
    }
}

/// Replacing goes character by character and keeps all others.
pub proof fn law_replacing_goes_character_by_character(
    a: Seq<char>,
    b: Seq<char>,
    x: char,
    c: char,
    by: Seq<char>,
)
    ensures
        replaced(a + b, c, by) == replaced(a, c, by) + replaced(b, c, by),
        replaced(seq![x], c, by) == (if x == c {
            by
        } else {
            seq![x]
        }),
        !a.contains(c) ==> replaced(a, c, by) == a,
    decreases a.len() + b.len(),
{
    assert(replaced(seq![x].drop_last(), c, by) =~= seq![]);
    assert(replaced(seq![x], c, by) =~= (if x == c {
        by
    } else {
        seq![x]
    }));
    if b.len() == 0 {
        assert(a + b =~= a);
        assert(replaced(a, c, by) + replaced(b, c, by) =~= replaced(a, c, by));
    } else {
        law_replacing_goes_character_by_character(a, b.drop_last(), x, c, by);
        assert((a + b).drop_last() =~= a + b.drop_last());
        assert(replaced(a + b, c, by) =~= replaced(a, c, by) + replaced(b, c, by));
    }
    if a.len() > 0 && !a.contains(c) {
        let front = a.drop_last();
        assert(a.contains(a.last()));
        assert(!front.contains(c)) by {
            if front.contains(c) {
                let k = choose|k: int| 0 <= k < front.len() && front[k] == c;
                assert(a[k] == c);
            }
        }
        law_replacing_goes_character_by_character(front, seq![], x, c, by);
        assert(replaced(a, c, by) =~= a);
    }
}

/// The number that decimal digits stand for.
pub open spec fn number_of(digits: Seq<char>) -> int
    decreases digits.len(),
{
    if digits.len() == 0 {
        0
    } else {
        10 * number_of(digits.drop_last()) + (digits.last() as int - '0' as int)
    }
}

/// A number written in decimal reads as that number, in digits only and without a leading
/// zero.
pub proof fn law_decimals_read_as_their_number(n: nat)
    ensures
        number_of(decimal(n)) == n,
        forall|i: int| 0 <= i < decimal(n).len() ==> '0' <= #[trigger] decimal(n)[i] <= '9',
        decimal(n).len() > 1 ==> decimal(n)[0] != '0',
    decreases n,
{
    if n < 10 {
        assert(number_of(seq![digit(n)].drop_last()) == 0);
        assert(seq![digit(n)].last() == digit(n));
    } else {
        law_decimals_read_as_their_number(n / 10);
        lemma_decimal_len(n / 10);
        assert(decimal(n).drop_last() =~= decimal(n / 10));
        assert forall|i: int| 0 <= i < decimal(n).len() implies '0' <= #[trigger] decimal(n)[i]
            <= '9' by {
            if i < decimal(n / 10).len() {
                assert(decimal(n)[i] == decimal(n / 10)[i]);
            }
        }
        assert(decimal(n)[0] == decimal(n / 10)[0]);
        if n / 10 < 10 {
            assert(decimal(n / 10)[0] == digit(n / 10));
        }
    }
}

proof fn lemma_line_end_is(s: Seq<char>, from: int, e: int)
    requires
        0 <= from <= e <= s.len(),
        forall|j: int| from <= j < e ==> #[trigger] s[j] != '\n',
        e < s.len() ==> s[e] == '\n',
    ensures
        line_end(s, from) == e,
    decreases e - from,
{
    if from < e {
        assert(s[from] != '\n');
        lemma_line_end_is(s, from + 1, e);
    }
}

proof fn lemma_lines_of_rest(s: Seq<char>, skip: int, from: int)
    requires
        0 <= skip <= from,
        skip <= s.len(),
    ensures
        lines_from(s.skip(skip), from - skip) == lines_from(s, from),
    decreases s.len() - from,
{
    let rest = s.skip(skip);
    if from < s.len() {
        lemma_line_end(s, from);
        let e = line_end(s, from);
        assert forall|j: int| from - skip <= j < e - skip implies #[trigger] rest[j] != '\n' by {
            assert(rest[j] == s[j + skip]);
        }
        lemma_line_end_is(rest, from - skip, e - skip);
        if e < s.len() {
            lemma_lines_of_rest(s, skip, e + 1);
            assert(rest.subrange(from - skip, e - skip) =~= s.subrange(from, e));
        } else {
            assert(rest.skip(from - skip) =~= s.skip(from));
        }
    }
}

/// The lines of a text are what stands in front of its first line feed, without a carriage
/// return at its end, and then the lines of what follows; what follows the last line feed is
/// a line unless it is empty.
pub proof fn law_lines_come_one_after_another(line: Seq<char>, rest: Seq<char>)
    requires
        !line.contains('\n'),
    ensures
        lines(line + seq!['\n'] + rest) == seq![
            if line.len() > 0 && line.last() == '\r' {
                line.drop_last()
            } else {
                line
            },
        ] + lines(rest),
        lines(line) == (if line.len() > 0 {
            seq![line]
        } else {
            Seq::<Seq<char>>::empty()
        }),
{
    let n = line.len() as int;
    let whole = line + seq!['\n'] + rest;
    assert forall|j: int| 0 <= j < n implies #[trigger] whole[j] != '\n' && line[j] != '\n' by {
        assert(whole[j] == line[j]);
        assert(line.contains(line[j]));
    }
    assert(whole[n] == '\n');
    lemma_line_end_is(whole, 0, n);
    lemma_line_end_is(line, 0, n);
    assert(whole.subrange(0, n) =~= line);
    assert(whole.skip(n + 1) =~= rest);
    lemma_lines_of_rest(whole, n + 1, n + 1);
    assert(line.skip(0) =~= line);
}

proof fn lemma_width(c: char)
    ensures
        encode_scalar(c as u32).len() == width(c),
{
    char_is_scalar(c);
}

proof fn lemma_byte_len_from_the_front(s: Seq<char>)
    requires
        s.len() > 0,
    ensures
        byte_len(s) == width(s[0]) + byte_len(s.drop_first()),
    decreases s.len(),
{
    let front = s.drop_last();
    if front.len() == 0 {
        assert(s.drop_first() =~= seq![]);
        assert(byte_len(front) == 0);
    } else {
        lemma_byte_len_from_the_front(front);
        assert(s.drop_first().drop_last() =~= front.drop_first());
        assert(s.drop_first().last() == s.last());
    }
}

/// The length of a text in bytes is that of its encoding.
pub proof fn law_bytes_are_those_of_the_encoding(s: Seq<char>)
    ensures
        byte_len(s) == encode_utf8(s).len(),
    decreases s.len(),
{
    if s.len() > 0 {
        lemma_byte_len_from_the_front(s);
        law_bytes_are_those_of_the_encoding(s.drop_first());
        lemma_width(s[0]);
        assert(encode_utf8(s) == encode_scalar(s[0] as u32) + encode_utf8(s.drop_first()));
    }
}

/// Making letters small goes character by character: a capital of the alphabet becomes the
/// small letter thirty-two places on, and everything else stays as it is.
pub proof fn law_only_capitals_are_made_small(s: Seq<char>, i: int)
    requires
        0 <= i < s.len(),
    ensures
        lowered(s).len() == s.len(),
        'A' <= s[i] <= 'Z' ==> lowered(s)[i] as int == s[i] as int + 32,
        !('A' <= s[i] <= 'Z') ==> lowered(s)[i] == s[i],
{
}

} // verus!
