//! Query-string parsing for the service layer: `a=1&b=2` becomes ordered
//! key/value pairs, a later binding of a key overriding an earlier one.

use crate::escape::push_char;
use crate::scan::pairs_view;
use vstd::prelude::*;
use vstd::string::StrSliceExecFns;
use vstd::string::StringExecFns;

verus! {

/// The `&`-separated pieces of a query string, the piece gathered so far in
/// `cur`.
pub open spec fn amp_split(s: Seq<char>, cur: Seq<char>) -> Seq<Seq<char>>
    decreases s.len(),
{
    if s.len() == 0 {
        seq![cur]
    } else if s[0] == '&' {
        seq![cur] + amp_split(s.drop_first(), Seq::empty())
    } else {
        amp_split(s.drop_first(), cur.push(s[0]))
    }
}

/// Index of the first `=` in `p`, or `p.len()` when there is none.
pub open spec fn find_eq(p: Seq<char>) -> int
    decreases p.len(),
{
    if p.len() == 0 {
        0
    } else if p[0] == '=' {
        0
    } else {
        1 + find_eq(p.drop_first())
    }
}

/// The key/value pair one piece denotes: what stands before its first `=`,
/// and everything after it.
pub open spec fn pair_of(p: Seq<char>) -> (Seq<char>, Seq<char>) {
    (p.take(find_eq(p)), p.skip(find_eq(p) + 1))
}

/// What a query string denotes: one key/value pair per `&`-separated piece,
/// each split at its first `=`.
pub open spec fn spec_query_pairs(s: Seq<char>) -> Seq<(Seq<char>, Seq<char>)> {
    Seq::new(
        amp_split(s, Seq::empty()).len(),
        |i: int| pair_of(amp_split(s, Seq::empty())[i]),
    )
}

pub proof fn lemma_find_eq_bounds(p: Seq<char>)
    ensures
        0 <= find_eq(p) <= p.len(),
    decreases p.len(),
{
    if p.len() > 0 && p[0] != '=' {
        lemma_find_eq_bounds(p.drop_first());
    }
}

/// Splits one piece at its first `=`.
fn split_pair(p: &str) -> (r: (String, String))
    requires
        find_eq(p@) < p@.len(),
    ensures
        r.0@ == pair_of(p@).0,
        r.1@ == pair_of(p@).1,
{
    let len = p.unicode_len();
    let mut k: usize = 0;
    proof {
        assert(p@.skip(0) =~= p@);
        lemma_find_eq_bounds(p@);
    }
    while k < len && p.get_char(k) != '='
        invariant
            len == p@.len(),
            k <= len,
            find_eq(p@) == k + find_eq(p@.skip(k as int)),
            find_eq(p@.skip(k as int)) >= 0,
        decreases len - k,
    {
        proof {
            assert(p@.skip(k as int)[0] == p@[k as int]);
            assert(p@.skip(k as int).drop_first() =~= p@.skip(k + 1));
            lemma_find_eq_bounds(p@.skip(k + 1));
        }
        k = k + 1;
    }
    proof {
        if k < len {
            assert(p@.skip(k as int)[0] == p@[k as int]);
            assert(find_eq(p@.skip(k as int)) == 0);
        } else {
            assert(p@.skip(k as int) =~= Seq::<char>::empty());
            assert(find_eq(p@.skip(k as int)) == 0);
        }
        assert(find_eq(p@) == k);
    }
    let key = p.substring_char(0, k).to_owned();
    let val = p.substring_char(k + 1, len).to_owned();
    proof {
        assert(p@.subrange(0, k as int) =~= p@.take(find_eq(p@)));
        assert(p@.subrange(k + 1, len as int) =~= p@.skip(find_eq(p@) + 1));
    }
    (key, val)
}

/// Parses a query string into ordered key/value pairs, one per
/// `&`-separated piece, each split at its first `=`.  Every piece must
/// carry an `=`; a later binding of a key overrides an earlier one for
/// lookups through `crate::scan::lookup_last`.
pub fn parse_query_string(query: &str) -> (r: Vec<(String, String)>)
    requires
        forall|i: int|
            0 <= i < amp_split(query@, Seq::empty()).len() ==> find_eq(
                #[trigger] amp_split(query@, Seq::empty())[i],
            ) < amp_split(query@, Seq::empty())[i].len(),
    ensures
        pairs_view(r@) == spec_query_pairs(query@),
{
    let len = query.unicode_len();
    let mut pieces: Vec<String> = Vec::new();
    let mut cur = String::new();
    let mut i: usize = 0;
    proof {
        assert(query@.skip(0) =~= query@);
        assert(pieces.deep_view() =~= Seq::<Seq<char>>::empty());
        assert(Seq::<Seq<char>>::empty() + amp_split(query@, Seq::empty()) =~= amp_split(
            query@,
            Seq::empty(),
        ));
    }
    while i < len
        invariant
            len == query@.len(),
            i <= len,
            pieces.deep_view() + amp_split(query@.skip(i as int), cur@) == amp_split(
                query@,
                Seq::empty(),
            ),
        decreases len - i,
    {
        proof {
            assert(query@.skip(i as int)[0] == query@[i as int]);
            assert(query@.skip(i as int).drop_first() =~= query@.skip(i + 1));
        }
        let ghost t_before = pieces.deep_view();
        let ghost c_before = cur@;
        let c = query.get_char(i);
        if c == '&' {
            let done = cur;
            cur = String::new();
            pieces.push(done);
            proof {
                assert(pieces.deep_view() =~= t_before.push(c_before));
                assert(amp_split(query@.skip(i as int), c_before) == seq![c_before] + amp_split(
                    query@.skip(i + 1),
                    Seq::empty(),
                ));
                assert(t_before.push(c_before) + amp_split(query@.skip(i + 1), Seq::empty())
                    =~= t_before + (seq![c_before] + amp_split(query@.skip(i + 1), Seq::empty())));
            }
        } else {
            push_char(&mut cur, c);
            proof {
                assert(cur@ =~= c_before.push(query@[i as int]));
                assert(amp_split(query@.skip(i as int), c_before) == amp_split(
                    query@.skip(i + 1),
                    c_before.push(query@[i as int]),
                ));
            }
        }
        i = i + 1;
    }
    proof {
        assert(query@.skip(len as int) =~= Seq::<char>::empty());
        assert(amp_split(query@.skip(len as int), cur@) == seq![cur@]);
    }
    pieces.push(cur);
    proof {
        assert(pieces.deep_view() =~= amp_split(query@, Seq::empty()));
    }
    let ghost raw = pieces.deep_view();
    let mut out: Vec<(String, String)> = Vec::new();
    let mut j: usize = 0;
    while j < pieces.len()
        invariant
            raw == pieces.deep_view(),
            raw == amp_split(query@, Seq::empty()),
            forall|q: int|
                0 <= q < amp_split(query@, Seq::empty()).len() ==> find_eq(
                    #[trigger] amp_split(query@, Seq::empty())[q],
                ) < amp_split(query@, Seq::empty())[q].len(),
            j <= pieces@.len(),
            out@.len() == j,
            forall|q: int| 0 <= q < j ==> #[trigger] pairs_view(out@)[q] == pair_of(raw[q]),
        decreases pieces.len() - j,
    {
        proof {
            assert(raw[j as int] == pieces@[j as int]@);
        }
        let ghost out_before = out@;
        let pair = split_pair(pieces[j].as_str());
        let ghost pv = (pair.0@, pair.1@);
        out.push(pair);
        proof {
            assert(pv == pair_of(raw[j as int]));
            assert forall|q: int| 0 <= q < j + 1 implies #[trigger] pairs_view(out@)[q] == pair_of(
                raw[q],
            ) by {
                if q < j {
                    assert(pairs_view(out_before)[q] == pair_of(raw[q]));
                    assert(out@[q] == out_before[q]);
                    assert(pairs_view(out@)[q] == (out@[q].0@, out@[q].1@));
                } else {
                    assert((out@[q].0@, out@[q].1@) == pv);
                    assert(pairs_view(out@)[q] == (out@[q].0@, out@[q].1@));
                }
            }
        }
        j = j + 1;
    }
    proof {
        assert(pairs_view(out@) =~= spec_query_pairs(query@));
    }
    out
}

} // verus!
