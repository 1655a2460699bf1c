//! Option lists: their canonical (byte-wise sorted) order, and the check that
//! a ballot holds exactly the options of a room.

use vstd::prelude::*;
use vstd::utf8::encode_utf8;

verus! {

broadcast use vstd::seq_lib::group_seq_properties;

/// The texts of a list of strings.
pub open spec fn texts(v: Seq<String>) -> Seq<Seq<char>> {
    v.map_values(|s: String| s@)
}

/// Lexicographic order of byte strings, compared from position `i` on.
pub open spec fn bytes_le_from(a: Seq<u8>, b: Seq<u8>, i: nat) -> bool
    decreases a.len() - i,
{
    if i >= a.len() {
        true
    } else if i >= b.len() {
        false
    } else if a[i as int] < b[i as int] {
        true
    } else if a[i as int] > b[i as int] {
        false
    } else {
        bytes_le_from(a, b, i + 1)
    }
}

/// The order of `String`: lexicographic over the UTF-8 bytes, which is the
/// order of code points.
pub open spec fn text_le(a: Seq<char>, b: Seq<char>) -> bool {
    bytes_le_from(encode_utf8(a), encode_utf8(b), 0)
}

/// Every text is in order with every later one.
pub open spec fn sorted_texts(s: Seq<Seq<char>>) -> bool {
    forall|i: int, j: int| 0 <= i < j < s.len() ==> text_le(#[trigger] s[i], #[trigger] s[j])
}

/// Two option lists hold the same options, each as many times, in any order.
pub open spec fn same_multiset(a: Seq<Seq<char>>, b: Seq<Seq<char>>) -> bool {
    a.to_multiset() == b.to_multiset()
}

proof fn lemma_bytes_total(a: Seq<u8>, b: Seq<u8>, i: nat)
    ensures
        bytes_le_from(a, b, i) || bytes_le_from(b, a, i),
    decreases a.len() - i,
{
    if i < a.len() && i < b.len() && a[i as int] == b[i as int] {
        lemma_bytes_total(a, b, i + 1);
    }
}

proof fn lemma_bytes_trans(a: Seq<u8>, b: Seq<u8>, c: Seq<u8>, i: nat)
    requires
        bytes_le_from(a, b, i),
        bytes_le_from(b, c, i),
    ensures
        bytes_le_from(a, c, i),
    decreases a.len() - i,
{
    if i < a.len() && i < b.len() && i < c.len() && a[i as int] == b[i as int] && b[i as int]
        == c[i as int] {
        lemma_bytes_trans(a, b, c, i + 1);
    }
}

proof fn lemma_text_total(a: Seq<char>, b: Seq<char>)
    ensures
        text_le(a, b) || text_le(b, a),
{
    lemma_bytes_total(encode_utf8(a), encode_utf8(b), 0);
}

proof fn lemma_text_trans(a: Seq<char>, b: Seq<char>, c: Seq<char>)
    requires
        text_le(a, b),
        text_le(b, c),
    ensures
        text_le(a, c),
{
    lemma_bytes_trans(encode_utf8(a), encode_utf8(b), encode_utf8(c), 0);
}

/// Compares two strings in `String`'s order.
pub fn text_le_exec(a: &str, b: &str) -> (r: bool)
    ensures
        r == text_le(a@, b@),
{
    let x = a.as_bytes();
    let y = b.as_bytes();
    let mut i: usize = 0;
    while i < x.len() && i < y.len() && x[i] == y[i]
        invariant
            x@ == encode_utf8(a@),
            y@ == encode_utf8(b@),
            i <= x@.len(),
            i <= y@.len(),
            bytes_le_from(x@, y@, 0) == bytes_le_from(x@, y@, i as nat),
        decreases x.len() - i,
    {
        i += 1;
    }
    if i == x.len() {
        true
    } else if i == y.len() {
        false
    } else {
        x[i] < y[i]
    }
}

proof fn lemma_texts_push(v: Seq<String>, s: String)
    ensures
        texts(v.push(s)) == texts(v).push(s@),
{
    assert(texts(v.push(s)) =~= texts(v).push(s@));
}

proof fn lemma_insert_multiset(s: Seq<Seq<char>>, p: int, x: Seq<char>)
    requires
        0 <= p <= s.len(),
    ensures
        s.insert(p, x).to_multiset() == s.to_multiset().insert(x),
{
    let t = s.insert(p, x);
    assert(t.remove(p) =~= s);
    assert(t[p] == x);
    assert(t.contains(x));
    assert(t.to_multiset() =~= s.to_multiset().insert(x));
}

/// The strings of `v` in `String`'s order: the same strings, each as many
/// times, none dropped and none merged.
pub fn sort_texts(v: &Vec<String>) -> (r: Vec<String>)
    ensures
        same_multiset(texts(r@), texts(v@)),
        sorted_texts(texts(r@)),
{
    let mut r: Vec<String> = Vec::new();
    let mut i: usize = 0;
    while i < v.len()
        invariant
            i <= v.len(),
            sorted_texts(texts(r@)),
            texts(r@).to_multiset() == texts(v@.subrange(0, i as int)).to_multiset(),
        decreases v.len() - i,
    {
        let x = v[i].clone();
        let mut p: usize = 0;
        while p < r.len() && text_le_exec(r[p].as_str(), x.as_str())
            invariant
                p <= r.len(),
                x@ == v@[i as int]@,
                sorted_texts(texts(r@)),
                forall|j: int| 0 <= j < p ==> text_le(#[trigger] r@[j]@, x@),
            decreases r.len() - p,
        {
            p += 1;
        }
        let ghost old_r = texts(r@);
        proof {
            if p < r.len() {
                lemma_text_total(r@[p as int]@, x@);
            }
        }
        r.insert(p, x);
        proof {
            let s = texts(r@);
            assert(s =~= old_r.insert(p as int, x@));
            assert forall|a: int, b: int| 0 <= a < b < s.len() implies text_le(
                #[trigger] s[a],
                #[trigger] s[b],
            ) by {
                if b < p {
                    assert(s[a] == old_r[a] && s[b] == old_r[b]);
                } else if b == p {
                    assert(s[a] == old_r[a]);
                } else if a < p {
                    assert(s[a] == old_r[a] && s[b] == old_r[b - 1]);
                    assert(text_le(old_r[a], x@));
                    assert(text_le(x@, old_r[p as int]));
                    if b - 1 > p {
                        lemma_text_trans(x@, old_r[p as int], old_r[b - 1]);
                    }
                    lemma_text_trans(old_r[a], x@, old_r[b - 1]);
                } else if a == p {
                    assert(s[b] == old_r[b - 1]);
                    if b - 1 > p {
                        lemma_text_trans(x@, old_r[p as int], old_r[b - 1]);
                    }
                } else {
                    assert(s[a] == old_r[a - 1] && s[b] == old_r[b - 1]);
                }
            }
            lemma_insert_multiset(old_r, p as int, x@);
            assert(v@.subrange(0, i + 1) =~= v@.subrange(0, i as int).push(v@[i as int]));
            lemma_texts_push(v@.subrange(0, i as int), v@[i as int]);
        }
        i += 1;
    }
    assert(v@.subrange(0, v.len() as int) =~= v@);
    r
}

/// How many strings of `v` have the text of `x`.
fn count_text(v: &Vec<String>, x: &String) -> (c: usize)
    ensures
        c == texts(v@).to_multiset().count(x@),
{
    let mut c: usize = 0;
    let mut i: usize = 0;
    while i < v.len()
        invariant
            i <= v.len(),
            c <= i,
            c == texts(v@.subrange(0, i as int)).to_multiset().count(x@),
        decreases v.len() - i,
    {
        proof {
            assert(v@.subrange(0, i + 1) =~= v@.subrange(0, i as int).push(v@[i as int]));
            lemma_texts_push(v@.subrange(0, i as int), v@[i as int]);
        }
        if v[i] == *x {
            c += 1;
        }
        i += 1;
    }
    assert(v@.subrange(0, v.len() as int) =~= v@);
    c
}

/// Whether `ballot` holds exactly the options of `options`, each as many
/// times, in any order.
pub fn same_options(ballot: &Vec<String>, options: &Vec<String>) -> (r: bool)
    ensures
        r == same_multiset(texts(ballot@), texts(options@)),
{
    let ghost a = texts(ballot@);
    let ghost b = texts(options@);
    if ballot.len() != options.len() {
        assert(a.to_multiset().len() != b.to_multiset().len());
        return false;
    }
    let mut i: usize = 0;
    while i < ballot.len()
        invariant
            i <= ballot.len(),
            a == texts(ballot@),
            b == texts(options@),
            forall|j: int|
                0 <= j < i ==> a.to_multiset().count(#[trigger] a[j]) == b.to_multiset().count(
                    a[j],
                ),
        decreases ballot.len() - i,
    {
        let ca = count_text(ballot, &ballot[i]);
        let cb = count_text(options, &ballot[i]);
        if ca != cb {
            return false;
        }
        i += 1;
    }
    let mut k: usize = 0;
    while k < options.len()
        invariant
            k <= options.len(),
            a == texts(ballot@),
            b == texts(options@),
            forall|j: int|
                0 <= j < k ==> a.to_multiset().count(#[trigger] b[j]) == b.to_multiset().count(
                    b[j],
                ),
        decreases options.len() - k,
    {
        let ca = count_text(ballot, &options[k]);
        let cb = count_text(options, &options[k]);
        if ca != cb {
            return false;
        }
        k += 1;
    }
    assert forall|t: Seq<char>| a.to_multiset().count(t) == b.to_multiset().count(t) by {
        if a.to_multiset().count(t) > 0 {
            assert(a.contains(t));
            let j = choose|j: int| 0 <= j < a.len() && a[j] == t;
            assert(a.to_multiset().count(a[j]) == b.to_multiset().count(a[j]));
        } else if b.to_multiset().count(t) > 0 {
            assert(b.contains(t));
            let j = choose|j: int| 0 <= j < b.len() && b[j] == t;
            assert(a.to_multiset().count(b[j]) == b.to_multiset().count(b[j]));
        }
    }
    assert(a.to_multiset() =~= b.to_multiset());
    true
}

/// A copy of a list of strings.
pub fn clone_texts(v: &Vec<String>) -> (r: Vec<String>)
    ensures
        texts(r@) == texts(v@),
{
    let mut r: Vec<String> = Vec::new();
    let mut i: usize = 0;
    while i < v.len()
        invariant
            i <= v.len(),
            texts(r@) == texts(v@.subrange(0, i as int)),
        decreases v.len() - i,
    {
        let x = v[i].clone();
        proof {
            assert(v@.subrange(0, i + 1) =~= v@.subrange(0, i as int).push(v@[i as int]));
            lemma_texts_push(v@.subrange(0, i as int), v@[i as int]);
            lemma_texts_push(r@, x);
        }
        r.push(x);
        i += 1;
    }
    assert(v@.subrange(0, v.len() as int) =~= v@);
    r
}

} // verus!
