//! Character-level text helpers shared by the sectioning, lexing and
//! rendering code: substring search, Unicode whitespace, and building
//! `String`s from character ranges.
use vstd::prelude::*;

verus! {

/// `String::push` appends one character (std documents exactly that).
pub assume_specification[ String::push ](s: &mut String, ch: char)
    ensures
        final(s)@ == old(s)@.push(ch),
;

/// `String::push_str` appends the characters of `other` (std documents
/// exactly that).
pub assume_specification[ String::push_str ](s: &mut String, other: &str)
    ensures
        final(s)@ == old(s)@ + other@,
;

/// `char::is_whitespace`: the Unicode `White_Space` property.
pub open spec fn is_ws(c: char) -> bool {
    let u = c as u32;
    ||| (0x09 <= u && u <= 0x0d)
    ||| u == 0x20
    ||| u == 0x85
    ||| u == 0xa0
    ||| u == 0x1680
    ||| (0x2000 <= u && u <= 0x200a)
    ||| u == 0x2028
    ||| u == 0x2029
    ||| u == 0x202f
    ||| u == 0x205f
    ||| u == 0x3000
}

/// Every character of `s` is whitespace (so `s.trim()` is empty).
pub open spec fn all_ws(s: Seq<char>) -> bool {
    forall|i: int| 0 <= i < s.len() ==> #[trigger] is_ws(s[i])
}

/// Number of leading whitespace characters of `s`.
pub open spec fn leading_ws(s: Seq<char>) -> nat
    decreases s.len(),
{
    if s.len() > 0 && is_ws(s[0]) {
        1 + leading_ws(s.drop_first())
    } else {
        0
    }
}

/// `s` with its leading whitespace removed (`str::trim_start`).
pub open spec fn trim_start(s: Seq<char>) -> Seq<char> {
    s.subrange(leading_ws(s) as int, s.len() as int)
}

/// `p` occurs in `s` starting at index `i`.
pub open spec fn occurs_at(s: Seq<char>, p: Seq<char>, i: int) -> bool {
    0 <= i && i + p.len() <= s.len() && s.subrange(i, i + p.len()) == p
}

/// The first index at or after `i` where `p` occurs in `s`.
pub open spec fn find_from(s: Seq<char>, p: Seq<char>, i: int) -> Option<int>
    decreases s.len() + 1 - i,
{
    if i < 0 || i + p.len() > s.len() {
        None
    } else if occurs_at(s, p, i) {
        Some(i)
    } else {
        find_from(s, p, i + 1)
    }
}

/// `str::find`: the index of the first occurrence of `p` in `s`.
pub open spec fn find(s: Seq<char>, p: Seq<char>) -> Option<int> {
    find_from(s, p, 0)
}

/// `find` with the result converted to the exec index type.
pub open spec fn found_at(r: Option<usize>, f: Option<int>) -> bool {
    match r {
        Some(k) => f == Some(k as int),
        None => f is None,
    }
}

pub proof fn lemma_find_from_bounds(s: Seq<char>, p: Seq<char>, i: int)
    ensures
        find_from(s, p, i) matches Some(k) ==> i <= k && occurs_at(s, p, k)
            && forall|j: int| i <= j < k ==> !occurs_at(s, p, j),
    decreases s.len() + 1 - i,
{
    if i < 0 || i + p.len() > s.len() {
    } else if occurs_at(s, p, i) {
    } else {
        lemma_find_from_bounds(s, p, i + 1);
    }
}

pub fn is_whitespace(c: char) -> (b: bool)
    ensures
        b == is_ws(c),
{
    let u = c as u32;
    (0x09 <= u && u <= 0x0d) || u == 0x20 || u == 0x85 || u == 0xa0 || u == 0x1680 || (0x2000
        <= u && u <= 0x200a) || u == 0x2028 || u == 0x2029 || u == 0x202f || u == 0x205f || u
        == 0x3000
}

/// The characters of `s`, in order.
pub fn chars_of(s: &str) -> (v: Vec<char>)
    ensures
        v@ == s@,
{
    let mut v: Vec<char> = Vec::new();
    for c in it: s.chars()
        invariant
            v@ == it.seq().take(it.index() as int),
    {
        v.push(c);
    }
    v
}

/// A `String` holding `s[lo..hi]`.
pub fn string_of(s: &Vec<char>, lo: usize, hi: usize) -> (r: String)
    requires
        lo <= hi <= s.len(),
    ensures
        r@ == s@.subrange(lo as int, hi as int),
{
    let mut r = String::new();
    let mut i = lo;
    while i < hi
        invariant
            lo <= i <= hi <= s.len(),
            r@ == s@.subrange(lo as int, i as int),
        decreases hi - i,
    {
        r.push(s[i]);
        assert(s@.subrange(lo as int, i + 1) == s@.subrange(lo as int, i as int).push(s@[i as int]));
        i += 1;
    }
    r
}

/// Whether `p` occurs in `s` at index `i`.
pub fn matches_at(s: &Vec<char>, lo: usize, hi: usize, p: &[char], i: usize) -> (b: bool)
    requires
        lo <= hi <= s.len(),
    ensures
        b == occurs_at(s@.subrange(lo as int, hi as int), p@, i as int),
{
    let ghost sub = s@.subrange(lo as int, hi as int);
    if i > hi - lo || p.len() > hi - lo - i {
        return false;
    }
    let mut k: usize = 0;
    while k < p.len()
        invariant
            lo <= hi <= s.len(),
            i + p.len() <= hi - lo,
            k <= p.len(),
            sub == s@.subrange(lo as int, hi as int),
            forall|j: int| 0 <= j < k ==> sub[i + j] == p@[j],
        decreases p.len() - k,
    {
        if s[lo + i + k] != p[k] {
            assert(sub.subrange(i as int, i + p.len())[k as int] != p@[k as int]);
            return false;
        }
        k += 1;
    }
    assert(sub.subrange(i as int, i + p.len()) =~= p@);
    true
}

/// `str::find` on the characters `s[lo..hi]`; the index is relative to `lo`.
pub fn find_in(s: &Vec<char>, lo: usize, hi: usize, p: &[char]) -> (r: Option<usize>)
    requires
        lo <= hi <= s.len(),
    ensures
        found_at(r, find(s@.subrange(lo as int, hi as int), p@)),
{
    let ghost sub = s@.subrange(lo as int, hi as int);
    let n = hi - lo;
    if p.len() > n {
        return None;
    }
    let mut i: usize = 0;
    let last = n - p.len();
    loop
        invariant
            lo <= hi <= s.len(),
            n == hi - lo,
            p.len() <= n,
            last == n - p.len(),
            i <= last,
            sub == s@.subrange(lo as int, hi as int),
            find(sub, p@) == find_from(sub, p@, i as int),
        decreases last - i,
    {
        if matches_at(s, lo, hi, p, i) {
            return Some(i);
        }
        if i == last {
            assert(find_from(sub, p@, i + 1) is None);
            return None;
        }
        i += 1;
    }
}

/// Whether every character of `s[lo..hi]` is whitespace.
pub fn all_whitespace(s: &Vec<char>, lo: usize, hi: usize) -> (b: bool)
    requires
        lo <= hi <= s.len(),
    ensures
        b == all_ws(s@.subrange(lo as int, hi as int)),
{
    let mut i = lo;
    while i < hi
        invariant
            lo <= i <= hi <= s.len(),
            forall|j: int| lo <= j < i ==> is_ws(s@[j]),
        decreases hi - i,
    {
        if !is_whitespace(s[i]) {
            assert(!is_ws(s@.subrange(lo as int, hi as int)[i - lo]));
            return false;
        }
        i += 1;
    }
    assert forall|j: int| 0 <= j < hi - lo implies #[trigger] is_ws(
        s@.subrange(lo as int, hi as int)[j],
    ) by {
        assert(s@.subrange(lo as int, hi as int)[j] == s@[lo + j]);
    }
    true
}

/// `a` sorts strictly before `b`: the order of `str`'s `Ord`, which
/// compares UTF-8 bytes and so agrees with comparing code points in turn.
pub open spec fn str_lt(a: Seq<char>, b: Seq<char>) -> bool
    decreases a.len(),
{
    if a.len() == 0 {
        b.len() > 0
    } else if b.len() == 0 {
        false
    } else if a[0] != b[0] {
        (a[0] as u32) < (b[0] as u32)
    } else {
        str_lt(a.drop_first(), b.drop_first())
    }
}

/// `str_lt` is irreflexive.
pub proof fn lemma_str_lt_irreflexive(a: Seq<char>)
    ensures
        !str_lt(a, a),
    decreases a.len(),
{
    if a.len() > 0 {
        lemma_str_lt_irreflexive(a.drop_first());
    }
}

/// Of two different strings, one sorts before the other.
pub proof fn lemma_str_lt_total(a: Seq<char>, b: Seq<char>)
    ensures
        a != b ==> str_lt(a, b) || str_lt(b, a),
    decreases a.len(),
{
    if a.len() == 0 && b.len() == 0 {
        assert(a =~= b);
    } else if a.len() == 0 || b.len() == 0 {
    } else if a[0] != b[0] {
        vstd::utf8::char_u32_cast(a[0], a[0] as u32);
        vstd::utf8::char_u32_cast(b[0], b[0] as u32);
        assert((a[0] as u32) != (b[0] as u32));
    } else {
        lemma_str_lt_total(a.drop_first(), b.drop_first());
        if a.drop_first() == b.drop_first() {
            assert(a.drop_first().len() == b.drop_first().len());
            assert(a.len() == b.len());
            assert(a =~= b) by {
                assert forall|i: int| 0 <= i < a.len() implies a[i] == b[i] by {
                    if i > 0 {
                        assert(a[i] == a.drop_first()[i - 1]);
                        assert(b[i] == b.drop_first()[i - 1]);
                    }
                }
            }
        }
    }
}

/// `str_lt` is transitive.
pub proof fn lemma_str_lt_transitive(a: Seq<char>, b: Seq<char>, c: Seq<char>)
    requires
        str_lt(a, b),
        str_lt(b, c),
    ensures
        str_lt(a, c),
    decreases a.len(),
{
    if a.len() > 0 && b.len() > 0 && c.len() > 0 && a[0] == b[0] && b[0] == c[0] {
        lemma_str_lt_transitive(a.drop_first(), b.drop_first(), c.drop_first());
    }
}

/// `a < b` in the order of `str_lt`.
pub fn str_less(a: &str, b: &str) -> (r: bool)
    ensures
        r == str_lt(a@, b@),
{
    let x = chars_of(a);
    let y = chars_of(b);
    let mut i: usize = 0;
    assert(a@.skip(0) =~= a@);
    assert(b@.skip(0) =~= b@);
    while i < x.len() && i < y.len()
        invariant
            i <= x.len(),
            i <= y.len(),
            x@ == a@,
            y@ == b@,
            str_lt(a@, b@) == str_lt(a@.skip(i as int), b@.skip(i as int)),
        decreases x.len() - i,
    {
        let ghost xs = a@.skip(i as int);
        let ghost ys = b@.skip(i as int);
        assert(xs.drop_first() =~= a@.skip(i + 1));
        assert(ys.drop_first() =~= b@.skip(i + 1));
        if x[i] != y[i] {
            return (x[i] as u32) < (y[i] as u32);
        }
        i += 1;
    }
    i < y.len()
}

/// `parts` joined with `sep` between them.
pub open spec fn join(parts: Seq<Seq<char>>, sep: Seq<char>) -> Seq<char>
    decreases parts.len(),
{
    if parts.len() == 0 {
        seq![]
    } else if parts.len() == 1 {
        parts[0]
    } else {
        join(parts.drop_last(), sep) + sep + parts.last()
    }
}

/// Append `parts` joined by `sep` to `out`.
pub fn push_joined(out: &mut String, parts: &Vec<String>, sep: &str)
    ensures
        final(out)@ == old(out)@ + join(parts@.map_values(|p: String| p@), sep@),
{
    let ghost start = out@;
    let ghost views = parts@.map_values(|p: String| p@);
    let mut i: usize = 0;
    assert(views.take(0) =~= Seq::<Seq<char>>::empty());
    while i < parts.len()
        invariant
            i <= parts.len(),
            views == parts@.map_values(|p: String| p@),
            out@ == start + join(views.take(i as int), sep@),
        decreases parts.len() - i,
    {
        assert(views.take(i + 1).drop_last() =~= views.take(i as int));
        assert(views.take(i + 1).last() == parts@[i as int]@);
        if i > 0 {
            out.push_str(sep);
        } else {
            assert(views.take(1) =~= seq![parts@[0]@]);
        }
        out.push_str(parts[i].as_str());
        proof {
            if i > 0 {
                assert(out@ =~= start + join(views.take(i + 1), sep@));
            } else {
                assert(join(views.take(0), sep@) =~= Seq::<char>::empty());
                assert(out@ =~= start + join(views.take(1), sep@));
            }
        }
        i += 1;
    }
    assert(views.take(parts.len() as int) =~= views);
}

/// `v` is sorted by name, each name before the next.
pub open spec fn sorted_by_name<V>(v: Seq<(String, V)>) -> bool {
    forall|i: int, j: int| 0 <= i < j < v.len() ==> !str_lt(v[j].0@, v[i].0@)
}

/// `(name, value)` pairs sorted by name; pairs with equal names keep their
/// order.
pub fn sort_by_name<V>(entries: Vec<(String, V)>) -> (r: Vec<(String, V)>)
    ensures
        r@.to_multiset() == entries@.to_multiset(),
        sorted_by_name(r@),
{
    let mut r: Vec<(String, V)> = Vec::new();
    let mut rest = entries;
    let ghost orig = rest@;
    proof {
        broadcast use vstd::seq_lib::group_to_multiset_ensures, vstd::multiset::group_multiset_axioms;
        assert(r@.to_multiset() =~= vstd::multiset::Multiset::empty());
        assert(r@.to_multiset().add(rest@.to_multiset()) =~= orig.to_multiset());
    }
    while rest.len() > 0
        invariant
            r@.to_multiset().add(rest@.to_multiset()) == orig.to_multiset(),
            sorted_by_name(r@),
        decreases rest.len(),
    {
        let ghost before_rest = rest@;
        let item = rest.remove(0);
        proof {
            vstd::seq_lib::to_multiset_remove(before_rest, 0);
        }
        let ghost before = r@;
        let mut k: usize = r.len();
        while k > 0 && str_less(item.0.as_str(), r[k - 1].0.as_str())
            invariant
                k <= r.len(),
                r@ == before,
                forall|j: int| k <= j < r.len() ==> str_lt(item.0@, #[trigger] r@[j].0@),
            decreases k,
        {
            k -= 1;
        }
        r.insert(k, item);
        proof {
            vstd::seq_lib::to_multiset_insert(before, k as int, item);
            before.insert_ensures(k as int, item);
            assert(before_rest.to_multiset() =~= rest@.to_multiset().insert(item)) by {
                broadcast use vstd::multiset::group_multiset_axioms;
                assert(before_rest =~= seq![item] + rest@);
                vstd::seq_lib::lemma_multiset_commutative(seq![item], rest@);
                assert(seq![item] =~= Seq::<(String, V)>::empty().push(item));
                vstd::seq_lib::to_multiset_build(Seq::<(String, V)>::empty(), item);
                assert(Seq::<(String, V)>::empty().to_multiset() =~= vstd::multiset::Multiset::empty()) by {
                    broadcast use vstd::seq_lib::group_to_multiset_ensures;
                }
            }
            assert(r@.to_multiset().add(rest@.to_multiset()) =~= orig.to_multiset()) by {
                broadcast use vstd::multiset::group_multiset_axioms;
            }
            assert forall|i: int, j: int| 0 <= i < j < r@.len() implies !str_lt(
                r@[j].0@,
                r@[i].0@,
            ) by {
                if j < k {
                    assert(r@[i] == before[i] && r@[j] == before[j]);
                } else if i > k {
                    assert(r@[i] == before[i - 1] && r@[j] == before[j - 1]);
                } else if i < k && j > k {
                    assert(r@[i] == before[i] && r@[j] == before[j - 1]);
                } else if j == k {
                    // r[i] = before[i] with i < k, and r[k] = item
                    assert(r@[i] == before[i] && r@[j] == item);
                    assert(!str_lt(item.0@, before[k - 1].0@));
                    if i < k - 1 && str_lt(item.0@, before[i].0@) {
                        lemma_str_lt_total(before[i].0@, before[k - 1].0@);
                        if str_lt(before[i].0@, before[k - 1].0@) {
                            lemma_str_lt_transitive(
                                item.0@,
                                before[i].0@,
                                before[k - 1].0@,
                            );
                        }
                    }
                } else {
                    // i == k: r[k] = item, r[j] = before[j - 1] sorts after it
                    assert(r@[i] == item && r@[j] == before[j - 1]);
                    assert(str_lt(item.0@, before[j - 1].0@));
                    if str_lt(before[j - 1].0@, item.0@) {
                        lemma_str_lt_transitive(
                            item.0@,
                            before[j - 1].0@,
                            item.0@,
                        );
                        lemma_str_lt_irreflexive(item.0@);
                    }
                }
            }
        }
    }
    proof {
        broadcast use vstd::seq_lib::group_to_multiset_ensures, vstd::multiset::group_multiset_axioms;
        assert(rest@.to_multiset() =~= vstd::multiset::Multiset::empty());
        assert(r@.to_multiset() =~= orig.to_multiset()) by {
            broadcast use vstd::multiset::group_multiset_axioms;
        }
    }
    r
}

} // verus!
