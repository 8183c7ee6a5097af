//! String helpers over the character view of `str` / `String`: equality,
//! whitespace trimming, substring search, lexicographic order and a stable
//! index sort by string keys.

use vstd::prelude::*;

verus! {

/// Character-wise equality of two string slices.
pub fn str_eq(a: &str, b: &str) -> (r: bool)
    ensures
        r == (a@ == b@),
{
    let n = a.unicode_len();
    let m = b.unicode_len();
    if n != m {
        return false;
    }
    let mut i: usize = 0;
    while i < n
        invariant
            n == a@.len(),
            m == b@.len(),
            n == m,
            i <= n,
            forall|j: int| 0 <= j < i ==> a@[j] == b@[j],
        decreases n - i,
    {
        if a.get_char(i) != b.get_char(i) {
            return false;
        }
        i = i + 1;
    }
    assert(a@ =~= b@);
    true
}

/// Owned copy of a string slice.
pub fn owned(s: &str) -> (r: String)
    ensures
        r@ == s@,
{
    String::from_str(s)
}

/// Concatenation of two string slices into a new `String`.
pub fn concat2(a: &str, b: &str) -> (r: String)
    ensures
        r@ == a@ + b@,
{
    let mut out = String::from_str(a);
    out.append(b);
    out
}

/// Concatenation of three string slices into a new `String`.
pub fn concat3(a: &str, b: &str, c: &str) -> (r: String)
    ensures
        r@ == a@ + b@ + c@,
{
    let mut out = String::from_str(a);
    out.append(b);
    out.append(c);
    out
}

/// Unicode `White_Space` characters, the set that `char::is_whitespace` accepts.
pub open spec fn is_ws(c: char) -> bool {
    let u = c as u32;
    (0x09 <= u && u <= 0x0d) || u == 0x20 || u == 0x85 || u == 0xa0 || u == 0x1680 || (0x2000
        <= u && u <= 0x200a) || u == 0x2028 || u == 0x2029 || u == 0x202f || u == 0x205f || u
        == 0x3000
}

/// Whether `c` is a Unicode whitespace character.
pub fn is_whitespace(c: char) -> (r: bool)
    ensures
        r == is_ws(c),
{
    let u = c as u32;
    (0x09 <= u && u <= 0x0d) || u == 0x20 || u == 0x85 || u == 0xa0 || u == 0x1680 || (0x2000
        <= u && u <= 0x200a) || u == 0x2028 || u == 0x2029 || u == 0x202f || u == 0x205f || u
        == 0x3000
}

/// Index of the first non-whitespace character at or after `i` (`s.len()` if none).
pub open spec fn first_non_ws(s: Seq<char>, i: int) -> int
    decreases s.len() - i,
{
    if i < 0 || i >= s.len() {
        s.len() as int
    } else if is_ws(s[i]) {
        first_non_ws(s, i + 1)
    } else {
        i
    }
}

/// One past the last non-whitespace character at or before `j` (`0` if none).
pub open spec fn end_non_ws(s: Seq<char>, j: int) -> int
    decreases j,
{
    if j <= 0 || j > s.len() {
        0
    } else if is_ws(s[j - 1]) {
        end_non_ws(s, j - 1)
    } else {
        j
    }
}

/// `s` without leading and trailing whitespace (what `str::trim` gives).
pub open spec fn trim_spec(s: Seq<char>) -> Seq<char> {
    let a = first_non_ws(s, 0);
    let b = end_non_ws(s, s.len() as int);
    if a < b {
        s.subrange(a, b)
    } else {
        Seq::empty()
    }
}

/// `first_non_ws` stays within bounds and skips only whitespace.
pub proof fn lemma_first_non_ws(s: Seq<char>, i: int)
    requires
        0 <= i <= s.len(),
    ensures
        i <= first_non_ws(s, i) <= s.len(),
        forall|k: int| i <= k < first_non_ws(s, i) ==> is_ws(s[k]),
        first_non_ws(s, i) < s.len() ==> !is_ws(s[first_non_ws(s, i)]),
    decreases s.len() - i,
{
    if i < s.len() && is_ws(s[i]) {
        lemma_first_non_ws(s, i + 1);
    }
}

/// `end_non_ws` stays within bounds and skips only whitespace.
pub proof fn lemma_end_non_ws(s: Seq<char>, j: int)
    requires
        0 <= j <= s.len(),
    ensures
        0 <= end_non_ws(s, j) <= j,
        forall|k: int| end_non_ws(s, j) <= k < j ==> is_ws(s[k]),
        end_non_ws(s, j) > 0 ==> !is_ws(s[end_non_ws(s, j) - 1]),
    decreases j,
{
    if j > 0 && is_ws(s[j - 1]) {
        lemma_end_non_ws(s, j - 1);
    }
}

/// Whitespace-trimmed view of a string slice.
pub fn trim(s: &str) -> (r: &str)
    ensures
        r@ == trim_spec(s@),
{
    let n = s.unicode_len();
    let mut a: usize = 0;
    while a < n && is_whitespace(s.get_char(a))
        invariant
            n == s@.len(),
            a <= n,
            first_non_ws(s@, 0) == first_non_ws(s@, a as int),
        decreases n - a,
    {
        a = a + 1;
    }
    let mut b: usize = n;
    while b > a && is_whitespace(s.get_char(b - 1))
        invariant
            n == s@.len(),
            a <= b <= n,
            end_non_ws(s@, n as int) == end_non_ws(s@, b as int),
        decreases b,
    {
        b = b - 1;
    }
    proof {
        lemma_first_non_ws(s@, a as int);
        lemma_end_non_ws(s@, b as int);
        lemma_end_non_ws(s@, n as int);
        if a < n {
            assert(first_non_ws(s@, a as int) == a);
        }
    }
    if a == b {
        proof {
            if a < n {
                // a is a non-whitespace position, so the end scan stops after it
                assert(!is_ws(s@[a as int]));
                assert(end_non_ws(s@, b as int) <= a);
            }
        }
        return s.substring_char(0, 0);
    }
    proof {
        assert(!is_ws(s@[b - 1]));
        assert(end_non_ws(s@, b as int) == b);
    }
    s.substring_char(a, b)
}

/// Whether `c` occurs in `s`.
pub fn contains_char(s: &str, c: char) -> (r: bool)
    ensures
        r == s@.contains(c),
{
    let n = s.unicode_len();
    let mut i: usize = 0;
    while i < n
        invariant
            n == s@.len(),
            i <= n,
            forall|k: int| 0 <= k < i ==> s@[k] != c,
        decreases n - i,
    {
        if s.get_char(i) == c {
            assert(s@[i as int] == c);
            return true;
        }
        i = i + 1;
    }
    false
}

/// `t` occurs in `s` starting at position `i`.
pub open spec fn occurs_at(s: Seq<char>, t: Seq<char>, i: int) -> bool {
    0 <= i && i + t.len() <= s.len() && s.subrange(i, i + t.len()) == t
}

/// `t` occurs somewhere in `s`.
pub open spec fn contains_seq(s: Seq<char>, t: Seq<char>) -> bool {
    exists|i: int| occurs_at(s, t, i)
}

/// Whether the string `t` occurs in `s`.
pub fn contains_str(s: &str, t: &str) -> (r: bool)
    ensures
        r == contains_seq(s@, t@),
{
    let n = s.unicode_len();
    let m = t.unicode_len();
    if m > n {
        assert forall|i: int| !occurs_at(s@, t@, i) by {}
        return false;
    }
    let mut i: usize = 0;
    while i <= n - m
        invariant
            n == s@.len(),
            m == t@.len(),
            m <= n,
            i <= n - m + 1,
            forall|k: int| 0 <= k < i ==> !occurs_at(s@, t@, k),
        decreases n - i,
    {
        let mut j: usize = 0;
        while j < m && s.get_char(i + j) == t.get_char(j)
            invariant
                n == s@.len(),
                m == t@.len(),
                i + m <= n,
                j <= m,
                forall|k: int| 0 <= k < j ==> s@[i + k] == t@[k],
            decreases m - j,
        {
            j = j + 1;
        }
        if j == m {
            assert(s@.subrange(i as int, i + m) =~= t@);
            assert(occurs_at(s@, t@, i as int));
            return true;
        }
        assert(!occurs_at(s@, t@, i as int)) by {
            assert(s@.subrange(i as int, i + m)[j as int] == s@[i + j]);
        }
        i = i + 1;
    }
    assert forall|k: int| !occurs_at(s@, t@, k) by {
        if 0 <= k && k + m <= n {
            assert(k < i);
        }
    }
    false
}

/// Lexicographic strict order on character sequences (by code point).
pub open spec fn seq_lt(a: Seq<char>, b: Seq<char>) -> bool
    decreases a.len(),
{
    if a.len() == 0 {
        b.len() > 0
    } else if b.len() == 0 {
        false
    } else if a[0] != b[0] {
        a[0] < b[0]
    } else {
        seq_lt(a.drop_first(), b.drop_first())
    }
}

/// `seq_lt` is irreflexive.
pub proof fn lemma_seq_lt_irreflexive(a: Seq<char>)
    ensures
        !seq_lt(a, a),
    decreases a.len(),
{
    if a.len() > 0 {
        lemma_seq_lt_irreflexive(a.drop_first());
    }
}

/// `seq_lt` is a total order: exactly one of `a < b`, `a == b`, `b < a`.
pub proof fn lemma_seq_lt_trichotomy(a: Seq<char>, b: Seq<char>)
    ensures
        seq_lt(a, b) || a == b || seq_lt(b, a),
        !(seq_lt(a, b) && seq_lt(b, a)),
        a == b ==> !seq_lt(a, b),
    decreases a.len(),
{
    if a.len() > 0 && b.len() > 0 {
        if a[0] == b[0] {
            lemma_seq_lt_trichotomy(a.drop_first(), b.drop_first());
            if a.drop_first() == b.drop_first() {
                assert(a =~= seq![a[0]] + a.drop_first());
                assert(b =~= seq![b[0]] + b.drop_first());
            }
        } else {
        }
    } else if a.len() == 0 && b.len() == 0 {
        assert(a =~= b);
    }
    if a == b {
        lemma_seq_lt_irreflexive(a);
    }
}

/// `seq_lt` is transitive.
pub proof fn lemma_seq_lt_transitive(a: Seq<char>, b: Seq<char>, c: Seq<char>)
    requires
        seq_lt(a, b),
        seq_lt(b, c),
    ensures
        seq_lt(a, c),
    decreases a.len(),
{
    if a.len() > 0 && b.len() > 0 && c.len() > 0 {
        if a[0] == b[0] && b[0] == c[0] {
            lemma_seq_lt_transitive(a.drop_first(), b.drop_first(), c.drop_first());
        }
    }
}

/// Lexicographic strict order on character sequences of two strings.
pub fn str_lt(a: &str, b: &str) -> (r: bool)
    ensures
        r == seq_lt(a@, b@),
{
    let n = a.unicode_len();
    let m = b.unicode_len();
    let mut i: usize = 0;
    assert(a@.subrange(0, n as int) =~= a@);
    assert(b@.subrange(0, m as int) =~= b@);
    while i < n && i < m
        invariant
            n == a@.len(),
            m == b@.len(),
            i <= n,
            i <= m,
            seq_lt(a@, b@) == seq_lt(a@.subrange(i as int, n as int), b@.subrange(i as int, m as int)),
        decreases n - i,
    {
        let x = a.get_char(i);
        let y = b.get_char(i);
        if x != y {
            proof {
                let sa = a@.subrange(i as int, n as int);
                let sb = b@.subrange(i as int, m as int);
                assert(sa[0] == x && sb[0] == y);
            }
            return x < y;
        }
        proof {
            let sa = a@.subrange(i as int, n as int);
            let sb = b@.subrange(i as int, m as int);
            assert(sa.drop_first() =~= a@.subrange(i + 1, n as int));
            assert(sb.drop_first() =~= b@.subrange(i + 1, m as int));
        }
        i = i + 1;
    }
    proof {
        let sa = a@.subrange(i as int, n as int);
        let sb = b@.subrange(i as int, m as int);
        assert(sa.len() == n - i && sb.len() == m - i);
    }
    i == n && i < m
}


/// Character views of a sequence of strings.
pub open spec fn views(v: Seq<String>) -> Seq<Seq<char>> {
    v.map_values(|s: String| s@)
}

/// `s` is in non-decreasing lexicographic order.
pub open spec fn sorted_seqs(s: Seq<Seq<char>>) -> bool {
    forall|i: int, j: int| 0 <= i < j < s.len() ==> !seq_lt(#[trigger] s[j], #[trigger] s[i])
}

/// Sorts strings in lexicographic (code point) order; the result is a
/// permutation of the input.
pub fn sort_strings(items: Vec<String>) -> (r: Vec<String>)
    ensures
        sorted_seqs(views(r@)),
        views(r@).to_multiset() == views(items@).to_multiset(),
{
    broadcast use vstd::seq_lib::group_to_multiset_ensures;
    let mut out: Vec<String> = Vec::new();
    let mut i: usize = 0;
    while i < items.len()
        invariant
            i <= items@.len(),
            sorted_seqs(views(out@)),
            views(out@).to_multiset() == views(items@.subrange(0, i as int)).to_multiset(),
        decreases items@.len() - i,
    {
        let x = items[i].clone();
        let mut p: usize = 0;
        while p < out.len() && !str_lt(x.as_str(), out[p].as_str())
            invariant
                p <= out@.len(),
                forall|k: int| 0 <= k < p ==> !seq_lt(x@, #[trigger] views(out@)[k]),
            decreases out@.len() - p,
        {
            p = p + 1;
        }
        let ghost before = views(out@);
        proof {
            // every element from p on is above x: out[p] is, and the rest follow it
            assert forall|k: int| p <= k < before.len() implies seq_lt(x@, #[trigger] before[k]) by {
                assert(seq_lt(x@, before[p as int]));
                if k > p {
                    lemma_seq_lt_trichotomy(before[p as int], before[k]);
                    if before[p as int] != before[k] {
                        lemma_seq_lt_transitive(x@, before[p as int], before[k]);
                    }
                }
            }
        }
        out.insert(p, x);
        proof {
            let now = views(out@);
            assert(now =~= before.insert(p as int, x@));
            assert forall|a: int, b: int| 0 <= a < b < now.len() implies !seq_lt(#[trigger] now[b], #[trigger] now[a]) by {
                if a == p {
                    lemma_seq_lt_trichotomy(x@, now[b]);
                } else if b == p {
                } else {
                }
            }
            assert(items@.subrange(0, i + 1) =~= items@.subrange(0, i as int).push(items@[i as int]));
            assert(views(items@.subrange(0, i + 1)) =~= views(items@.subrange(0, i as int)).push(x@));
            vstd::seq_lib::to_multiset_insert(before, p as int, x@);
            vstd::seq_lib::to_multiset_build(views(items@.subrange(0, i as int)), x@);
            assert(now.to_multiset() == before.to_multiset().insert(x@));
        }
        i = i + 1;
    }
    assert(items@.subrange(0, items@.len() as int) =~= items@);
    out
}

/// Ordering of keyed positions: by primary key, then secondary key, then position.
pub open spec fn keyed_lt(k1: (Seq<char>, Seq<char>), i1: int, k2: (Seq<char>, Seq<char>), i2: int) -> bool {
    seq_lt(k1.0, k2.0) || (k1.0 == k2.0 && (seq_lt(k1.1, k2.1) || (k1.1 == k2.1 && i1 < i2)))
}

/// The key at a position of a key table.
pub open spec fn key_at(keys: Seq<(Seq<char>, Seq<char>)>, i: int) -> (Seq<char>, Seq<char>) {
    keys[i]
}

/// Character views of a table of string keys.
pub open spec fn key_views(keys: Seq<(String, String)>) -> Seq<(Seq<char>, Seq<char>)> {
    keys.map_values(|k: (String, String)| (k.0@, k.1@))
}

/// `order` lists every position of `keys` exactly once, in increasing
/// (primary key, secondary key, position) order. Such an order is unique: it is
/// the stable sort of the positions by the keys.
pub open spec fn is_stable_order(keys: Seq<(Seq<char>, Seq<char>)>, order: Seq<usize>) -> bool {
    &&& order.len() == keys.len()
    &&& forall|k: int| 0 <= k < order.len() ==> order[k] < keys.len()
    &&& forall|j: usize| j < keys.len() ==> #[trigger] order.contains(j)
    &&& forall|a: int, b: int|
        #![trigger order[a], order[b]]
        0 <= a < b < order.len() ==> keyed_lt(
            key_at(keys, order[a] as int),
            order[a] as int,
            key_at(keys, order[b] as int),
            order[b] as int,
        )
}

/// `keyed_lt` is transitive.
pub proof fn lemma_keyed_lt_transitive(
    k1: (Seq<char>, Seq<char>),
    i1: int,
    k2: (Seq<char>, Seq<char>),
    i2: int,
    k3: (Seq<char>, Seq<char>),
    i3: int,
)
    requires
        keyed_lt(k1, i1, k2, i2),
        keyed_lt(k2, i2, k3, i3),
    ensures
        keyed_lt(k1, i1, k3, i3),
{
    if seq_lt(k1.0, k2.0) && seq_lt(k2.0, k3.0) {
        lemma_seq_lt_transitive(k1.0, k2.0, k3.0);
    }
    if k1.0 == k2.0 && k2.0 == k3.0 && seq_lt(k1.1, k2.1) && seq_lt(k2.1, k3.1) {
        lemma_seq_lt_transitive(k1.1, k2.1, k3.1);
    }
}

/// Compares the keys of two positions by (primary, secondary) only.
fn key_less(keys: &Vec<(String, String)>, x: usize, y: usize) -> (r: bool)
    requires
        x < keys@.len(),
        y < keys@.len(),
    ensures
        r == (seq_lt(keys@[x as int].0@, keys@[y as int].0@) || (keys@[x as int].0@
            == keys@[y as int].0@ && seq_lt(keys@[x as int].1@, keys@[y as int].1@))),
{
    if str_lt(keys[x].0.as_str(), keys[y].0.as_str()) {
        true
    } else if str_eq(keys[x].0.as_str(), keys[y].0.as_str()) {
        str_lt(keys[x].1.as_str(), keys[y].1.as_str())
    } else {
        false
    }
}

/// Stable sort of the positions of `keys` by (primary, secondary) key.
pub fn stable_order(keys: &Vec<(String, String)>) -> (order: Vec<usize>)
    ensures
        is_stable_order(key_views(keys@), order@),
{
    let n = keys.len();
    let mut order: Vec<usize> = Vec::new();
    let mut i: usize = 0;
    while i < n
        invariant
            n == keys@.len(),
            i <= n,
            order@.len() == i,
            forall|k: int| 0 <= k < order@.len() ==> order@[k] < i,
            forall|j: usize| j < i ==> #[trigger] order@.contains(j),
            forall|a: int, b: int|
                #![trigger order@[a], order@[b]]
                0 <= a < b < order@.len() ==> keyed_lt(
                    key_at(key_views(keys@), order@[a] as int),
                    order@[a] as int,
                    key_at(key_views(keys@), order@[b] as int),
                    order@[b] as int,
                ),
        decreases n - i,
    {
        // first position whose key is strictly above the key of `i`
        let mut p: usize = 0;
        while p < order.len() && !key_less(keys, i, order[p])
            invariant
                n == keys@.len(),
                i < n,
                p <= order@.len(),
                forall|k: int| 0 <= k < order@.len() ==> order@[k] < i,
                forall|q: int|
                    0 <= q < p ==> !(seq_lt(key_at(key_views(keys@), i as int).0, key_at(key_views(keys@), order@[q] as int).0)
                        || (key_at(key_views(keys@), i as int).0 == key_at(key_views(keys@), order@[q] as int).0
                        && seq_lt(key_at(key_views(keys@), i as int).1, key_at(key_views(keys@), order@[q] as int).1))),
            decreases order@.len() - p,
        {
            p = p + 1;
        }
        let ghost old_order = order@;
        order.insert(p, i);
        proof {
            let ki = key_at(key_views(keys@), i as int);
            assert forall|a: int, b: int|
                #![trigger order@[a], order@[b]]
                0 <= a < b < order@.len() implies keyed_lt(
                    key_at(key_views(keys@), order@[a] as int),
                    order@[a] as int,
                    key_at(key_views(keys@), order@[b] as int),
                    order@[b] as int,
                ) by {
                if a < p && b < p {
                    assert(order@[a] == old_order[a] && order@[b] == old_order[b]);
                } else if a < p && b == p {
                    let ka = key_at(key_views(keys@), old_order[a] as int);
                    lemma_seq_lt_trichotomy(ki.0, ka.0);
                    lemma_seq_lt_trichotomy(ki.1, ka.1);
                    assert(order@[a] == old_order[a]);
                } else if a < p && b > p {
                    assert(order@[a] == old_order[a] && order@[b] == old_order[b - 1]);
                    assert(old_order[a] == old_order[a]);
                    let ghost x = old_order[a];
                    assert(keyed_lt(key_at(key_views(keys@), old_order[a] as int), old_order[a] as int,
                        key_at(key_views(keys@), old_order[b - 1] as int), old_order[b - 1] as int));
                } else if a == p {
                    assert(order@[b] == old_order[b - 1]);
                    let kb = key_at(key_views(keys@), old_order[p as int] as int);
                    // the key at the old position p is strictly above the key of i
                    assert(seq_lt(ki.0, kb.0) || (ki.0 == kb.0 && seq_lt(ki.1, kb.1)));
                    if b - 1 > p {
                        assert(keyed_lt(kb, old_order[p as int] as int,
                            key_at(key_views(keys@), old_order[b - 1] as int), old_order[b - 1] as int));
                        lemma_keyed_lt_transitive(ki, i as int, kb, old_order[p as int] as int,
                            key_at(key_views(keys@), old_order[b - 1] as int), old_order[b - 1] as int);
                    }
                } else {
                    assert(order@[a] == old_order[a - 1] && order@[b] == old_order[b - 1]);
                    assert(keyed_lt(key_at(key_views(keys@), old_order[a - 1] as int), old_order[a - 1] as int,
                        key_at(key_views(keys@), old_order[b - 1] as int), old_order[b - 1] as int));
                }
            }
            assert forall|j: usize| j < i + 1 implies #[trigger] order@.contains(j) by {
                if j == i {
                    assert(order@[p as int] == i);
                } else {
                    assert(old_order.contains(j));
                    let k = choose|k: int| 0 <= k < old_order.len() && old_order[k] == j;
                    if k < p {
                        assert(order@[k] == j);
                    } else {
                        assert(order@[k + 1] == j);
                    }
                }
            }
        }
        i = i + 1;
    }
    order
}

/// The decimal digit character for `d` (`d < 10`).
pub open spec fn digit_char(d: nat) -> char {
    if d == 0 { '0' } else if d == 1 { '1' } else if d == 2 { '2' } else if d == 3 { '3' }
    else if d == 4 { '4' } else if d == 5 { '5' } else if d == 6 { '6' } else if d == 7 { '7' }
    else if d == 8 { '8' } else { '9' }
}

/// Decimal representation of `n` without leading zeros.
pub open spec fn decimal_spec(n: nat) -> Seq<char>
    decreases n,
{
    if n < 10 {
        seq![digit_char(n)]
    } else {
        decimal_spec(n / 10) + seq![digit_char(n % 10)]
    }
}

/// The one-character string of a decimal digit.
fn digit_str(d: u64) -> (r: &'static str)
    requires
        d < 10,
    ensures
        r@ == seq![digit_char(d as nat)],
{
    proof {
        reveal_strlit("0");
        reveal_strlit("1");
        reveal_strlit("2");
        reveal_strlit("3");
        reveal_strlit("4");
        reveal_strlit("5");
        reveal_strlit("6");
        reveal_strlit("7");
        reveal_strlit("8");
        reveal_strlit("9");
    }
    let r = if d == 0 { "0" } else if d == 1 { "1" } else if d == 2 { "2" } else if d == 3 { "3" }
    else if d == 4 { "4" } else if d == 5 { "5" } else if d == 6 { "6" } else if d == 7 { "7" }
    else if d == 8 { "8" } else { "9" };
    assert(r@ =~= seq![digit_char(d as nat)]);
    r
}

/// Decimal representation of an unsigned integer.
pub fn decimal(n: u64) -> (r: String)
    ensures
        r@ == decimal_spec(n as nat),
    decreases n,
{
    if n < 10 {
        owned(digit_str(n))
    } else {
        let mut out = decimal(n / 10);
        out.append(digit_str(n % 10));
        out
    }
}

} // verus!
