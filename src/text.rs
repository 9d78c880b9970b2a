//! Character-level text helpers: ASCII case folding, case-insensitive
//! substring search and whitespace tokenisation.
use vstd::prelude::*;
use vstd::string::*;

verus! {

/// The code of `c` after ASCII case folding ('A'..='Z' become 'a'..='z').
pub open spec fn fold(c: char) -> u32 {
    if 'A' <= c && c <= 'Z' {
        (c as u32 + 32) as u32
    } else {
        c as u32
    }
}

/// `a` and `b` hold the same characters up to ASCII case.
pub open spec fn eq_fold(a: Seq<char>, b: Seq<char>) -> bool {
    a.len() == b.len() && forall|i: int| 0 <= i < a.len() ==> #[trigger] fold(a[i]) == fold(b[i])
}

/// `needle` occurs in `hay` at position `at`, up to ASCII case.
pub open spec fn occurs_at(hay: Seq<char>, needle: Seq<char>, at: int) -> bool {
    0 <= at && at + needle.len() <= hay.len() && forall|j: int|
        0 <= j < needle.len() ==> #[trigger] fold(needle[j]) == fold(hay[at + j])
}

/// `needle` is a substring of `hay`, up to ASCII case.
pub open spec fn contains_fold(hay: Seq<char>, needle: Seq<char>) -> bool {
    exists|at: int| occurs_at(hay, needle, at)
}

fn fold_char(c: char) -> (r: u32)
    ensures
        r == fold(c),
{
    if 'A' <= c && c <= 'Z' {
        c as u32 + 32
    } else {
        c as u32
    }
}

/// Compares two strings, ignoring ASCII case.
pub fn str_eq_fold(a: &str, b: &str) -> (r: bool)
    ensures
        r == eq_fold(a@, b@),
{
    let n = a.unicode_len();
    if n != b.unicode_len() {
        return false;
    }
    let mut i: usize = 0;
    while i < n
        invariant
            n == a@.len(),
            n == b@.len(),
            i <= n,
            forall|k: int| 0 <= k < i ==> #[trigger] fold(a@[k]) == fold(b@[k]),
        decreases n - i,
    {
        if fold_char(a.get_char(i)) != fold_char(b.get_char(i)) {
            return false;
        }
        i += 1;
    }
    true
}

fn occurs_at_exec(hay: &str, needle: &str, at: usize, hn: usize, nn: usize) -> (r: bool)
    requires
        hn == hay@.len(),
        nn == needle@.len(),
        at + nn <= hn,
    ensures
        r == occurs_at(hay@, needle@, at as int),
{
    let mut j: usize = 0;
    while j < nn
        invariant
            hn == hay@.len(),
            nn == needle@.len(),
            at + nn <= hn,
            j <= nn,
            forall|k: int| 0 <= k < j ==> #[trigger] fold(needle@[k]) == fold(hay@[at + k]),
        decreases nn - j,
    {
        if fold_char(needle.get_char(j)) != fold_char(hay.get_char(at + j)) {
            return false;
        }
        j += 1;
    }
    true
}

/// Whether `needle` occurs in `hay`, ignoring ASCII case.
pub fn contains_ignore_case(hay: &str, needle: &str) -> (r: bool)
    ensures
        r == contains_fold(hay@, needle@),
{
    let hn = hay.unicode_len();
    let nn = needle.unicode_len();
    if nn > hn {
        assert forall|at: int| !occurs_at(hay@, needle@, at) by {}
        return false;
    }
    let mut at: usize = 0;
    while at <= hn - nn
        invariant
            hn == hay@.len(),
            nn == needle@.len(),
            nn <= hn,
            at <= hn - nn + 1,
            forall|p: int| 0 <= p < at ==> !occurs_at(hay@, needle@, p),
        decreases hn - at,
    {
        if occurs_at_exec(hay, needle, at, hn, nn) {
            return true;
        }
        at += 1;
    }
    assert forall|p: int| !occurs_at(hay@, needle@, p) by {
        if 0 <= p && p < at {
        }
    }
    false
}

/// Unicode white space, as `char::is_whitespace` defines it.
pub open spec fn is_ws(c: char) -> bool {
    ('\t' <= c && c <= '\r') || c == ' ' || c == '\u{85}' || c == '\u{a0}' || c == '\u{1680}'
        || ('\u{2000}' <= c && c <= '\u{200a}') || c == '\u{2028}' || c == '\u{2029}'
        || c == '\u{202f}' || c == '\u{205f}' || c == '\u{3000}'
}

/// Whether `c` is white space.
pub fn is_space(c: char) -> (r: bool)
    ensures
        r == is_ws(c),
{
    ('\t' <= c && c <= '\r') || c == ' ' || c == '\u{85}' || c == '\u{a0}' || c == '\u{1680}'
        || ('\u{2000}' <= c && c <= '\u{200a}') || c == '\u{2028}' || c == '\u{2029}'
        || c == '\u{202f}' || c == '\u{205f}' || c == '\u{3000}'
}

/// The maximal runs of non-white-space characters of `s`, in order.
pub open spec fn words(s: Seq<char>) -> Seq<Seq<char>>
    decreases s.len(),
{
    if s.len() == 0 {
        seq![]
    } else {
        let p = s.drop_last();
        let w = words(p);
        let c = s.last();
        if is_ws(c) {
            w
        } else if p.len() > 0 && !is_ws(p.last()) {
            w.update(w.len() - 1, w.last().push(c))
        } else {
            w.push(seq![c])
        }
    }
}

/// The views of a list of strings.
pub open spec fn views(v: Seq<String>) -> Seq<Seq<char>> {
    v.map_values(|t: String| t@)
}

/// Splits `s` at white space into its words.
pub fn split_words(s: &str) -> (r: Vec<String>)
    ensures
        views(r@) == words(s@),
{
    let n = s.unicode_len();
    let mut out: Vec<String> = Vec::new();
    let mut start: usize = 0;
    let mut in_run = false;
    let mut i: usize = 0;
    while i < n
        invariant
            n == s@.len(),
            i <= n,
            in_run == (i > 0 && !is_ws(s@[i - 1])),
            in_run ==> start < i,
            views(out@) + (if in_run { seq![s@.subrange(start as int, i as int)] } else { seq![] })
                == words(s@.subrange(0, i as int)),
        decreases n - i,
    {
        let c = s.get_char(i);
        let ghost pre = s@.subrange(0, i as int);
        let ghost cur = s@.subrange(0, i + 1);
        assert(cur.drop_last() =~= pre);
        assert(cur.last() == c);
        if is_space(c) {
            if in_run {
                let t = s.substring_char(start, i).to_owned();
                proof {
                    assert(views(out@.push(t)) =~= views(out@).push(t@));
                }
                out.push(t);
            }
            in_run = false;
        } else {
            if in_run {
                proof {
                    let w = words(pre);
                    assert(w.last() == s@.subrange(start as int, i as int));
                    assert(s@.subrange(start as int, i as int).push(c) =~= s@.subrange(start as int, i + 1));
                    assert(views(out@) + seq![s@.subrange(start as int, i + 1)] =~= w.update(
                        w.len() - 1,
                        w.last().push(c),
                    ));
                }
            } else {
                start = i;
                proof {
                    assert(s@.subrange(start as int, i + 1) =~= seq![c]);
                    assert(views(out@) + seq![s@.subrange(start as int, i + 1)] =~= words(pre).push(
                        seq![c],
                    ));
                }
            }
            in_run = true;
        }
        i += 1;
        proof {
            if !in_run {
                assert(views(out@) + seq![] =~= views(out@));
            }
        }
    }
    assert(s@.subrange(0, n as int) =~= s@);
    if in_run {
        let t = s.substring_char(start, n).to_owned();
        proof {
            assert(views(out@.push(t)) =~= views(out@).push(t@));
        }
        out.push(t);
    } else {
        assert(views(out@) + seq![] =~= views(out@));
    }
    out
}

/// Compares two strings character by character.
pub fn str_eq(a: &str, b: &str) -> (r: bool)
    ensures
        r == (a@ == b@),
{
    let n = a.unicode_len();
    if n != b.unicode_len() {
        return false;
    }
    let mut i: usize = 0;
    while i < n
        invariant
            n == a@.len(),
            n == b@.len(),
            i <= n,
            forall|k: int| 0 <= k < i ==> a@[k] == b@[k],
        decreases n - i,
    {
        if a.get_char(i) != b.get_char(i) {
            return false;
        }
        i += 1;
    }
    assert(a@ =~= b@);
    true
}

/// What `str::to_lowercase` returns for `s`.
pub uninterp spec fn lower_of(s: Seq<char>) -> Seq<char>;

/// Relies on `str::to_lowercase`: the result depends on the characters alone.
#[verifier::external_body]
pub(crate) fn lowercase(s: &str) -> (r: String)
    ensures
        r@ == lower_of(s@),
{
    s.to_lowercase()
}

/// The words of `text`, each in lower case.
pub open spec fn lower_words(text: Seq<char>) -> Seq<Seq<char>> {
    words(text).map_values(|w: Seq<char>| lower_of(w))
}

/// Lowers each of `ws`.
pub fn lower_each(ws: &Vec<String>) -> (r: Vec<String>)
    ensures
        views(r@) == views(ws@).map_values(|w: Seq<char>| lower_of(w)),
{
    let mut out: Vec<String> = Vec::new();
    let mut k: usize = 0;
    while k < ws.len()
        invariant
            k <= ws@.len(),
            views(out@) == views(ws@).subrange(0, k as int).map_values(|w: Seq<char>| lower_of(w)),
        decreases ws@.len() - k,
    {
        let l = lowercase(ws[k].as_str());
        proof {
            assert(views(out@.push(l)) =~= views(out@).push(l@));
            assert(views(ws@).subrange(0, k + 1).map_values(|w: Seq<char>| lower_of(w)) =~= views(ws@).subrange(
                0,
                k as int,
            ).map_values(|w: Seq<char>| lower_of(w)).push(lower_of(ws@[k as int]@)));
        }
        out.push(l);
        k += 1;
    }
    assert(views(ws@).subrange(0, k as int) =~= views(ws@));
    out
}

} // verus!
