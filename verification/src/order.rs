//! The order of strings, and lists of strings kept in ascending order.

use vstd::prelude::*;
use vstd::std_specs::iter::IteratorSpec;

verus! {

/// Whether `a` comes strictly before `b`: the strings are compared character by
/// character, by code point, and a proper prefix comes before the longer string.
pub open spec fn precedes(a: Seq<char>, b: Seq<char>) -> bool
    decreases a.len(),
{
    if b.len() == 0 {
        false
    } else if a.len() == 0 {
        true
    } else if a.first() != b.first() {
        a.first() < b.first()
    } else {
        precedes(a.drop_first(), b.drop_first())
    }
}

/// No string comes before itself.
pub proof fn lemma_precedes_irreflexive(a: Seq<char>)
    ensures
        !precedes(a, a),
    decreases a.len(),
{
    if a.len() > 0 {
        lemma_precedes_irreflexive(a.drop_first());
    }
}

/// The order is transitive.
pub proof fn lemma_precedes_transitive(a: Seq<char>, b: Seq<char>, c: Seq<char>)
    requires
        precedes(a, b),
        precedes(b, c),
    ensures
        precedes(a, c),
    decreases a.len(),
{
    if a.len() > 0 && a.first() == b.first() && b.first() == c.first() {
        lemma_precedes_transitive(a.drop_first(), b.drop_first(), c.drop_first());
    }
}

/// Of two different strings one comes before the other.
pub proof fn lemma_precedes_total(a: Seq<char>, b: Seq<char>)
    ensures
        a == b || precedes(a, b) || precedes(b, a),
    decreases a.len(),
{
    if a.len() > 0 && b.len() > 0 && a.first() == b.first() {
        lemma_precedes_total(a.drop_first(), b.drop_first());
        if a.drop_first() == b.drop_first() {
            assert(a =~= seq![a.first()] + a.drop_first());
        }
    }
}

/// How one string stands to another in the order.
#[derive(Clone, Copy, Debug, PartialEq, Eq)]
pub enum Rank {
    Before,
    Same,
    After,
}

/// The rank of `a` relative to `b`.
pub open spec fn rank(a: Seq<char>, b: Seq<char>) -> Rank {
    if a == b {
        Rank::Same
    } else if precedes(a, b) {
        Rank::Before
    } else {
        Rank::After
    }
}

/// Compares two strings in one pass over their characters.
pub fn rank_of(a: &str, b: &str) -> (r: Rank)
    ensures
        r == rank(a@, b@),
{
    broadcast use vstd::string::group_string_axioms;

    let mut left = a.chars();
    let mut right = b.chars();
    let ghost mut at: int = 0;
    assert(a@.skip(0) =~= a@ && b@.skip(0) =~= b@);
    loop
        invariant
            0 <= at <= a@.len(),
            at <= b@.len(),
            left.remaining() == a@.skip(at),
            right.remaining() == b@.skip(at),
            rank(a@, b@) == rank(a@.skip(at), b@.skip(at)),
        decreases a@.len() - at,
    {
        let ghost l = a@.skip(at);
        let ghost r = b@.skip(at);
        let x = left.next();
        let y = right.next();
        proof {
            lemma_precedes_total(l, r);
            lemma_precedes_irreflexive(l);
            if l.len() > 0 && r.len() > 0 {
                assert(l.drop_first() =~= a@.skip(at + 1));
                assert(r.drop_first() =~= b@.skip(at + 1));
            }
        }
        match (x, y) {
            (None, None) => {
                return Rank::Same;
            },
            (None, Some(_)) => {
                return Rank::Before;
            },
            (Some(_), None) => {
                return Rank::After;
            },
            (Some(c), Some(d)) => {
                if c < d {
                    return Rank::Before;
                } else if d < c {
                    return Rank::After;
                }
                proof {
                    at = at + 1;
                }
            },
        }
    }
}

/// Whether the strings of `list` stand in strictly ascending order.
pub open spec fn ascending(list: Seq<Seq<char>>) -> bool {
    forall|i: int, j: int| 0 <= i < j < list.len() ==> precedes(list[i], list[j])
}

/// Whether `list` holds exactly the strings of `set`, each once, in ascending order.
pub open spec fn lists(list: Seq<Seq<char>>, set: Set<Seq<char>>) -> bool {
    ascending(list) && list.to_set() == set
}

/// A set of strings has at most one ascending list.
pub proof fn lemma_ascending_list_unique(x: Seq<Seq<char>>, y: Seq<Seq<char>>)
    requires
        ascending(x),
        ascending(y),
        x.to_set() == y.to_set(),
    ensures
        x == y,
    decreases x.len(),
{
    if x.len() == 0 {
        if y.len() > 0 {
            assert(y.to_set().contains(y[0]));
        }
    } else if y.len() == 0 {
        assert(x.to_set().contains(x[0]));
    } else {
        // The first string of an ascending list is the least of its set.
        assert(y.to_set().contains(x[0]));
        assert(x.to_set().contains(y[0]));
        let i = choose|i: int| 0 <= i < y.len() && y[i] == x[0];
        let j = choose|j: int| 0 <= j < x.len() && x[j] == y[0];
        if i > 0 && j > 0 {
            lemma_precedes_transitive(x[0], x[j], y[i]);
            lemma_precedes_irreflexive(x[0]);
        }
        let xs = x.drop_first();
        let ys = y.drop_first();
        assert forall|s: Seq<char>| xs.to_set().contains(s) == ys.to_set().contains(s) by {
            lemma_precedes_irreflexive(s);
            if xs.contains(s) {
                assert(y.to_set().contains(s));
                let m = choose|m: int| 0 <= m < y.len() && y[m] == s;
                assert(ys[m - 1] == s);
            }
            if ys.contains(s) {
                assert(x.to_set().contains(s));
                let m = choose|m: int| 0 <= m < x.len() && x[m] == s;
                assert(xs[m - 1] == s);
            }
        }
        assert(xs.to_set() =~= ys.to_set());
        lemma_ascending_list_unique(xs, ys);
        assert(x =~= seq![x[0]] + xs);
    }
}

/// Looks `key` up in an ascending list by bisection: `Ok` with the index at which
/// it stands, or `Err` with the index at which it would have to be inserted.
pub fn search(list: &[String], key: &str) -> (r: Result<usize, usize>)
    requires
        ascending(list.deep_view()),
    ensures
        r is Ok <==> list.deep_view().contains(key@),
        match r {
            Ok(i) => i < list.len() && list[i as int]@ == key@,
            Err(i) => {
                &&& i <= list.len()
                &&& forall|j: int| 0 <= j < i ==> precedes(#[trigger] list[j]@, key@)
                &&& forall|j: int| i <= j < list.len() ==> precedes(key@, #[trigger] list[j]@)
            },
        },
{
    let ghost texts = list.deep_view();
    let mut lo: usize = 0;
    let mut hi: usize = list.len();
    while lo < hi
        invariant
            texts == list.deep_view(),
            ascending(texts),
            lo <= hi <= list.len(),
            forall|j: int| 0 <= j < lo ==> precedes(#[trigger] list[j]@, key@),
            forall|j: int| hi <= j < list.len() ==> precedes(key@, #[trigger] list[j]@),
        decreases hi - lo,
    {
        let mid = lo + (hi - lo) / 2;
        match rank_of(list[mid].as_str(), key) {
            Rank::Same => {
                assert(texts[mid as int] == key@);
                return Ok(mid);
            },
            Rank::Before => {
                assert forall|j: int| 0 <= j < mid + 1 implies precedes(#[trigger] list[j]@, key@) by {
                    if j < mid {
                        assert(precedes(texts[j], texts[mid as int]));
                        lemma_precedes_transitive(list[j]@, list[mid as int]@, key@);
                    }
                }
                lo = mid + 1;
            },
            Rank::After => {
                proof {
                    lemma_precedes_total(list[mid as int]@, key@);
                }
                assert forall|j: int| mid <= j < list.len() implies precedes(
                    key@,
                    #[trigger] list[j]@,
                ) by {
                    if j > mid {
                        assert(precedes(texts[mid as int], texts[j]));
                        lemma_precedes_transitive(key@, list[mid as int]@, list[j]@);
                    }
                }
                hi = mid;
            },
        }
    }
    proof {
        lemma_precedes_irreflexive(key@);
    }
    Err(lo)
}

/// Adds `key` to an ascending list unless the list holds it already.
pub fn insert_ascending(list: &mut Vec<String>, key: String)
    requires
        ascending(old(list).deep_view()),
    ensures
        lists(final(list).deep_view(), old(list).deep_view().to_set().insert(key@)),
{
    let ghost before = list.deep_view();
    match search(list.as_slice(), key.as_str()) {
        Ok(_) => {
            assert(before.to_set().insert(key@) =~= before.to_set());
        },
        Err(at) => {
            list.insert(at, key);
            proof {
                lemma_insert_keeps_ascending(before, at as int, key@);
                assert(list.deep_view() =~= before.insert(at as int, key@));
            }
        },
    }
}

/// Inserting a string at the place where the order wants it keeps a list ascending
/// and adds the string to its set.
pub proof fn lemma_insert_keeps_ascending(list: Seq<Seq<char>>, at: int, key: Seq<char>)
    requires
        ascending(list),
        0 <= at <= list.len(),
        forall|j: int| 0 <= j < at ==> precedes(#[trigger] list[j], key),
        forall|j: int| at <= j < list.len() ==> precedes(key, #[trigger] list[j]),
    ensures
        lists(list.insert(at, key), list.to_set().insert(key)),
{
    let after = list.insert(at, key);
    assert forall|s: Seq<char>| after.to_set().contains(s) == list.to_set().insert(key).contains(
        s,
    ) by {
        if list.contains(s) {
            let k = choose|k: int| 0 <= k < list.len() && list[k] == s;
            if k < at {
                assert(after[k] == s);
            } else {
                assert(after[k + 1] == s);
            }
        }
        if s == key {
            assert(after[at] == s);
        }
    }
    assert(after.to_set() =~= list.to_set().insert(key));
}

} // verus!
