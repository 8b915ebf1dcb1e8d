//! Character-level text helpers shared by the theme translator: string
//! equality, substring search, and whitespace trimming.

use vstd::prelude::*;
use vstd::string::StrSliceExecFns;

verus! {

/// `n` occurs as a contiguous run inside `h`.
pub open spec fn has_substr(h: Seq<char>, n: Seq<char>) -> bool {
    exists|i: int| 0 <= i <= h.len() - n.len() && #[trigger] h.subrange(i, i + n.len()) == n
}

/// The whitespace characters this format can carry around a token.
pub open spec fn is_space_char(c: char) -> bool {
    c == ' ' || c == '\t' || c == '\n' || c == '\r'
}

/// `s` with leading whitespace removed.
pub open spec fn trim_front(s: Seq<char>) -> Seq<char>
    decreases s.len(),
{
    if s.len() > 0 && is_space_char(s[0]) {
        trim_front(s.drop_first())
    } else {
        s
    }
}

/// `s` with trailing whitespace removed.
pub open spec fn trim_back(s: Seq<char>) -> Seq<char>
    decreases s.len(),
{
    if s.len() > 0 && is_space_char(s.last()) {
        trim_back(s.drop_last())
    } else {
        s
    }
}

/// `s` with whitespace removed from both ends.
pub open spec fn spec_trim(s: Seq<char>) -> Seq<char> {
    trim_back(trim_front(s))
}

fn is_space(c: char) -> (r: bool)
    ensures
        r == is_space_char(c),
{
    c == ' ' || c == '\t' || c == '\n' || c == '\r'
}

/// A sequence assembled around `mid` contains `mid`.
pub proof fn lemma_has_substr_concat(pre: Seq<char>, mid: Seq<char>, post: Seq<char>)
    ensures
        has_substr(pre + mid + post, mid),
{
    let whole = pre + mid + post;
    let i = pre.len() as int;
    assert(whole.subrange(i, i + mid.len()) =~= mid);
}

/// The characters of `s`, one vector entry each.
pub fn str_chars(s: &str) -> (r: Vec<char>)
    ensures
        r@ == s@,
{
    let n = s.unicode_len();
    let mut chars: Vec<char> = Vec::new();
    let mut i: usize = 0;
    while i < n
        invariant
            n == s@.len(),
            i <= n,
            chars@ =~= s@.take(i as int),
        decreases n - i,
    {
        chars.push(s.get_char(i));
        i = i + 1;
        proof {
            assert(chars@ =~= s@.take(i as int));
        }
    }
    proof {
        assert(chars@ =~= s@);
    }
    chars
}

/// Character-for-character string equality.
pub fn str_eq(a: &str, b: &str) -> (r: bool)
    ensures
        r == (a@ == b@),
{
    let la = a.unicode_len();
    let lb = b.unicode_len();
    if la != lb {
        return false;
    }
    let mut i: usize = 0;
    while i < la
        invariant
            la == a@.len(),
            la == b@.len(),
            i <= la,
            forall|j: int| 0 <= j < i ==> a@[j] == b@[j],
        decreases la - i,
    {
        if a.get_char(i) != b.get_char(i) {
            return false;
        }
        i = i + 1;
    }
    proof {
        assert(a@ =~= b@);
    }
    true
}

/// Whether `needle` occurs anywhere inside `hay`.
pub fn contains_sub(hay: &str, needle: &str) -> (r: bool)
    ensures
        r == has_substr(hay@, needle@),
{
    let hl = hay.unicode_len();
    let nl = needle.unicode_len();
    if nl > hl {
        return false;
    }
    if nl == 0 {
        proof {
            assert(hay@.subrange(0, 0 + needle@.len() as int) =~= needle@);
        }
        return true;
    }
    let mut i: usize = 0;
    while i <= hl - nl
        invariant
            hl == hay@.len(),
            nl == needle@.len(),
            1 <= nl <= hl,
            i <= hl - nl + 1,
            forall|p: int|
                0 <= p < i ==> #[trigger] hay@.subrange(p, p + needle@.len()) != needle@,
        decreases hl - nl + 1 - i,
    {
        let mut j: usize = 0;
        let mut matches = true;
        while j < nl
            invariant
                hl == hay@.len(),
                nl == needle@.len(),
                nl <= hl,
                i <= hl - nl,
                j <= nl,
                matches ==> forall|q: int| 0 <= q < j ==> hay@[i + q] == #[trigger] needle@[q],
                !matches ==> hay@.subrange(i as int, i + needle@.len()) != needle@,
            decreases nl - j,
        {
            if hay.get_char(i + j) != needle.get_char(j) {
                proof {
                    assert(hay@.subrange(i as int, i + needle@.len())[j as int] == hay@[i + j]);
                }
                matches = false;
                j = nl;
            } else {
                j = j + 1;
            }
        }
        if matches {
            proof {
                assert(hay@.subrange(i as int, i + needle@.len()) =~= needle@);
            }
            return true;
        }
        i = i + 1;
    }
    proof {
        assert(forall|p: int|
            0 <= p <= hay@.len() - needle@.len() ==> #[trigger] hay@.subrange(
                p,
                p + needle@.len(),
            ) != needle@);
    }
    false
}

/// `s` with whitespace removed from both ends, as an owned string.
pub fn trim_str(s: &str) -> (r: String)
    ensures
        r@ == spec_trim(s@),
{
    let len = s.unicode_len();
    let mut start: usize = 0;
    proof {
        assert(s@.skip(0) =~= s@);
    }
    while start < len && is_space(s.get_char(start))
        invariant
            len == s@.len(),
            start <= len,
            trim_front(s@) == trim_front(s@.skip(start as int)),
        decreases len - start,
    {
        proof {
            assert(s@.skip(start as int)[0] == s@[start as int]);
            assert(s@.skip(start as int).drop_first() =~= s@.skip(start + 1));
        }
        start = start + 1;
    }
    proof {
        assert(s@.skip(start as int).len() > 0 ==> s@.skip(start as int)[0] == s@[start as int]);
        assert(trim_front(s@) == s@.skip(start as int));
    }
    let mut end: usize = len;
    proof {
        let t = s@.skip(start as int);
        assert(t.take(len - start) =~= t);
    }
    while end > start && is_space(s.get_char(end - 1))
        invariant
            len == s@.len(),
            start <= end <= len,
            trim_front(s@) == s@.skip(start as int),
            trim_back(s@.skip(start as int)) == trim_back(
                s@.skip(start as int).take(end - start),
            ),
        decreases end,
    {
        proof {
            let t = s@.skip(start as int);
            assert(t.take(end - start).last() == s@[end - 1]);
            assert(t.take(end - start).drop_last() =~= t.take(end - 1 - start));
        }
        end = end - 1;
    }
    proof {
        let t = s@.skip(start as int);
        assert(t.take(end - start).len() > 0 ==> t.take(end - start).last() == s@[end - 1]);
        assert(trim_back(t) == t.take(end - start));
        assert(t.take(end - start) =~= s@.subrange(start as int, end as int));
    }
    let piece = s.substring_char(start, end);
    piece.to_owned()
}


/// The last value bound to `key` among ordered key/value pairs, as a later
/// pair overrides an earlier one.
pub open spec fn map_get_last(pairs: Seq<(Seq<char>, Seq<char>)>, key: Seq<char>) -> Option<
    Seq<char>,
>
    decreases pairs.len(),
{
    if pairs.len() == 0 {
        None
    } else if pairs.last().0 == key {
        Some(pairs.last().1)
    } else {
        map_get_last(pairs.drop_last(), key)
    }
}

/// Ordered key/value pairs as sequences of characters.
pub open spec fn pairs_view(v: Seq<(String, String)>) -> Seq<(Seq<char>, Seq<char>)> {
    Seq::new(v.len(), |i: int| (v[i].0@, v[i].1@))
}

/// Looks a key up among ordered key/value pairs; a later pair overrides an
/// earlier one.
pub fn lookup_last<'a>(pairs: &'a Vec<(String, String)>, key: &str) -> (r: Option<&'a String>)
    ensures
        match r {
            Some(v) => map_get_last(pairs_view(pairs@), key@) == Some(v@),
            None => map_get_last(pairs_view(pairs@), key@) is None,
        },
{
    let ghost view = pairs_view(pairs@);
    let mut j = pairs.len();
    proof {
        assert(view.take(pairs@.len() as int) =~= view);
    }
    while j > 0
        invariant
            j <= pairs@.len(),
            view == pairs_view(pairs@),
            map_get_last(view, key@) == map_get_last(view.take(j as int), key@),
        decreases j,
    {
        proof {
            assert(view.take(j as int).last() == view[j - 1]);
            assert(view[j - 1].0 == pairs@[j - 1].0@);
            assert(view.take(j as int).drop_last() =~= view.take(j - 1));
        }
        if str_eq(pairs[j - 1].0.as_str(), key) {
            return Some(&pairs[j - 1].1);
        }
        j = j - 1;
    }
    proof {
        assert(view.take(0) =~= Seq::<(Seq<char>, Seq<char>)>::empty());
    }
    None
}

} // verus!
