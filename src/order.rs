//! Deterministic ordering of paths and names: path by path component, each
//! component by character code.
use vstd::prelude::*;
use crate::text::chars_of;

verus! {

/// The rank of a character in path order: the separator `/` before every other
/// character, the others by code.
pub open spec fn rank(c: char) -> int {
    if c == '/' {
        0
    } else {
        (c as u32) as int + 1
    }
}

/// `a` comes strictly before `b`: at the first difference its character has the
/// smaller rank, or `a` is a proper prefix of `b`. With `/` ranked first, paths
/// compare component by component: `a/b.rs` before `a.rs`, since `a` is a proper
/// prefix of `a.rs`. Names without `/` compare by character code.
pub open spec fn text_lt(a: Seq<char>, b: Seq<char>) -> bool
    decreases a.len(),
{
    if a.len() == 0 {
        b.len() > 0
    } else if b.len() == 0 {
        false
    } else if a[0] != b[0] {
        rank(a[0]) < rank(b[0])
    } else {
        text_lt(a.drop_first(), b.drop_first())
    }
}

/// `a` does not come after `b`.
pub open spec fn text_le(a: Seq<char>, b: Seq<char>) -> bool {
    !text_lt(b, a)
}

pub proof fn lemma_text_lt_asymmetric(a: Seq<char>, b: Seq<char>)
    ensures
        text_lt(a, b) ==> !text_lt(b, a),
    decreases a.len(),
{
    if a.len() > 0 && b.len() > 0 && a[0] == b[0] {
        lemma_text_lt_asymmetric(a.drop_first(), b.drop_first());
    }
}

/// Length of the first `/`-separated component of `s`.
pub open spec fn component_len(s: Seq<char>) -> nat
    decreases s.len(),
{
    if s.len() == 0 || s[0] == '/' {
        0
    } else {
        1 + component_len(s.drop_first())
    }
}

/// Path order component by component: the first components compare by character
/// code (a proper prefix first); when they are equal, a path that ends there comes
/// first, and otherwise the rest of the paths decide.
pub open spec fn components_lt(a: Seq<char>, b: Seq<char>) -> bool
    decreases a.len(),
{
    let i = component_len(a) as int;
    let j = component_len(b) as int;
    if a.take(i) != b.take(j) {
        text_lt(a.take(i), b.take(j))
    } else if i >= a.len() {
        j < b.len()
    } else if j >= b.len() {
        false
    } else {
        components_lt(a.skip(i + 1), b.skip(j + 1))
    }
}

pub proof fn lemma_component_len(s: Seq<char>)
    ensures
        component_len(s) <= s.len(),
        component_len(s) < s.len() ==> s[component_len(s) as int] == '/',
        forall|k: int| 0 <= k < component_len(s) ==> s[k] != '/',
    decreases s.len(),
{
    if s.len() > 0 && s[0] != '/' {
        let t = s.drop_first();
        lemma_component_len(t);
        assert forall|k: int| 0 <= k < component_len(s) implies s[k] != '/' by {
            if k > 0 {
                assert(s[k] == t[k - 1]);
            }
        }
    }
}

proof fn lemma_text_lt_common(p: Seq<char>, x: Seq<char>, y: Seq<char>)
    ensures
        text_lt(p + x, p + y) == text_lt(x, y),
    decreases p.len(),
{
    if p.len() > 0 {
        assert((p + x).drop_first() =~= p.drop_first() + x);
        assert((p + y).drop_first() =~= p.drop_first() + y);
        lemma_text_lt_common(p.drop_first(), x, y);
    } else {
        assert(p + x =~= x);
        assert(p + y =~= y);
    }
}

/// When the first components differ, they alone decide.
proof fn lemma_text_lt_first_components(a: Seq<char>, b: Seq<char>)
    requires
        a.take(component_len(a) as int) != b.take(component_len(b) as int),
    ensures
        text_lt(a, b) == text_lt(a.take(component_len(a) as int), b.take(component_len(b) as int)),
    decreases a.len(),
{
    lemma_component_len(a);
    lemma_component_len(b);
    let i = component_len(a) as int;
    let j = component_len(b) as int;
    let ca = a.take(i);
    let cb = b.take(j);
    if i == 0 && j == 0 {
        assert(ca =~= cb);
    } else if i == 0 {
        assert(cb[0] == b[0]);
    } else if j == 0 {
        assert(ca[0] == a[0]);
    } else if a[0] != b[0] {
        assert(ca[0] == a[0] && cb[0] == b[0]);
    } else {
        let ta = a.drop_first();
        let tb = b.drop_first();
        assert(ca[0] == a[0] && cb[0] == b[0]);
        assert(component_len(ta) == i - 1);
        assert(component_len(tb) == j - 1);
        assert(ca.drop_first() =~= ta.take(i - 1));
        assert(cb.drop_first() =~= tb.take(j - 1));
        assert(ta.take(i - 1) != tb.take(j - 1)) by {
            if ta.take(i - 1) == tb.take(j - 1) {
                assert(ca =~= seq![a[0]] + ta.take(i - 1));
                assert(cb =~= seq![b[0]] + tb.take(j - 1));
            }
        }
        lemma_text_lt_first_components(ta, tb);
    }
}

/// The path order is the order of the paths' components: `text_lt` on whole paths
/// agrees with comparing their `/`-separated components one by one.
pub proof fn law_path_order_by_components(a: Seq<char>, b: Seq<char>)
    ensures
        text_lt(a, b) == components_lt(a, b),
    decreases a.len(),
{
    lemma_component_len(a);
    lemma_component_len(b);
    let i = component_len(a) as int;
    let j = component_len(b) as int;
    if a.take(i) != b.take(j) {
        lemma_text_lt_first_components(a, b);
    } else {
        assert(a.take(i).len() == i && b.take(j).len() == j);
        assert(i == j);
        let p = a.take(i);
        let x = a.skip(i);
        let y = b.skip(i);
        assert(a =~= p + x);
        assert(b =~= p + y);
        lemma_text_lt_common(p, x, y);
        if i >= a.len() {
            assert(x.len() == 0);
        } else if j >= b.len() {
            assert(y.len() == 0);
            assert(x[0] == '/');
        } else {
            assert(x[0] == '/' && y[0] == '/');
            assert(x.drop_first() =~= a.skip(i + 1));
            assert(y.drop_first() =~= b.skip(j + 1));
            law_path_order_by_components(a.skip(i + 1), b.skip(j + 1));
        }
    }
}

/// Whether `a` comes strictly before `b`.
pub fn text_less(a: &str, b: &str) -> (r: bool)
    ensures
        r == text_lt(a@, b@),
{
    let av = chars_of(a);
    let bv = chars_of(b);
    let mut i: usize = 0;
    assert(av@.skip(0) =~= av@);
    assert(bv@.skip(0) =~= bv@);
    while i < av.len() && i < bv.len() && av[i] == bv[i]
        invariant
            i <= av@.len(),
            i <= bv@.len(),
            av@ == a@,
            bv@ == b@,
            forall|j: int| 0 <= j < i ==> av@[j] == bv@[j],
            text_lt(a@, b@) == text_lt(av@.skip(i as int), bv@.skip(i as int)),
        decreases av@.len() - i,
    {
        assert(av@.skip(i as int).drop_first() =~= av@.skip(i + 1));
        assert(bv@.skip(i as int).drop_first() =~= bv@.skip(i + 1));
        i = i + 1;
    }
    if i == av.len() {
        i < bv.len()
    } else if i == bv.len() {
        false
    } else {
        rank_of(av[i]) < rank_of(bv[i])
    }
}

fn rank_of(c: char) -> (r: u64)
    ensures
        r as int == rank(c),
{
    if c == '/' {
        0
    } else {
        c as u64 + 1
    }
}

/// The keys taken in the order `order`, each not after the next.
pub open spec fn ordered_by(keys: Seq<Seq<char>>, order: Seq<usize>) -> bool {
    forall|j: int|
        0 <= j < order.len() - 1 ==> text_le(
            keys[#[trigger] order[j] as int],
            keys[order[j + 1] as int],
        )
}

/// `order` lists each index below `n` exactly once.
pub open spec fn is_permutation(order: Seq<usize>, n: nat) -> bool {
    &&& order.len() == n
    &&& forall|j: int| 0 <= j < order.len() ==> #[trigger] order[j] < n
    &&& forall|a: int, b: int| 0 <= a < b < order.len() ==> #[trigger] order[a] != #[trigger] order[b]
}

/// Where `x` goes among `order` from position `p` on: before the first key that
/// comes strictly after it, else at the end.
pub open spec fn insert_pos(keys: Seq<Seq<char>>, order: Seq<usize>, x: Seq<char>, p: int) -> int
    decreases order.len() - p,
{
    if p < 0 || p >= order.len() {
        order.len() as int
    } else if text_lt(x, keys[order[p] as int]) {
        p
    } else {
        insert_pos(keys, order, x, p + 1)
    }
}

/// The order of the first `n` keys that inserting them one by one gives.
pub open spec fn insertion_order(keys: Seq<Seq<char>>, n: nat) -> Seq<usize>
    decreases n,
{
    if n == 0 {
        seq![]
    } else {
        let o = insertion_order(keys, (n - 1) as nat);
        o.insert(insert_pos(keys, o, keys[n - 1], 0), (n - 1) as usize)
    }
}

proof fn lemma_insert_keeps_order(kv: Seq<Seq<char>>, old_r: Seq<usize>, p: int, i: usize)
    requires
        is_permutation(old_r, i as nat),
        ordered_by(kv, old_r),
        0 <= p <= old_r.len(),
        i < kv.len(),
        forall|j: int| 0 <= j < p ==> text_le(kv[#[trigger] old_r[j] as int], kv[i as int]),
        p < old_r.len() ==> text_le(kv[i as int], kv[old_r[p] as int]),
    ensures
        is_permutation(old_r.insert(p, i), (i + 1) as nat),
        ordered_by(kv, old_r.insert(p, i)),
{
    let r = old_r.insert(p, i);
    assert forall|j: int| 0 <= j < r.len() implies #[trigger] r[j] < i + 1 by {
        if j < p {
            assert(r[j] == old_r[j]);
        } else if j > p {
            assert(r[j] == old_r[j - 1]);
        }
    }
    assert forall|a: int, b: int| 0 <= a < b < r.len() implies #[trigger] r[a]
        != #[trigger] r[b] by {
        if a != p && b != p {
            let oa = if a < p {
                a
            } else {
                a - 1
            };
            let ob = if b < p {
                b
            } else {
                b - 1
            };
            assert(r[a] == old_r[oa]);
            assert(r[b] == old_r[ob]);
        } else if a == p {
            assert(r[b] == old_r[b - 1]);
        } else {
            assert(r[a] == old_r[a]);
        }
    }
    assert forall|j: int| 0 <= j < r.len() - 1 implies text_le(
        kv[#[trigger] r[j] as int],
        kv[r[j + 1] as int],
    ) by {
        if j + 1 < p {
            assert(r[j] == old_r[j] && r[j + 1] == old_r[j + 1]);
        } else if j + 1 == p {
            assert(r[j] == old_r[j]);
        } else if j == p {
            assert(r[j + 1] == old_r[j]);
        } else {
            assert(r[j] == old_r[j - 1] && r[j + 1] == old_r[j]);
        }
    }
}

/// The indices of `keys` in sorted order: each index once, and each key not after
/// the next one; equal keys keep their relative order.
pub fn sorted_order(keys: &Vec<String>) -> (r: Vec<usize>)
    ensures
        is_permutation(r@, keys@.len()),
        ordered_by(keys@.map_values(|s: String| s@), r@),
        r@ == insertion_order(keys@.map_values(|s: String| s@), keys@.len()),
{
    let ghost kv = keys@.map_values(|s: String| s@);
    let mut r: Vec<usize> = Vec::new();
    let mut i: usize = 0;
    while i < keys.len()
        invariant
            i <= keys@.len(),
            kv == keys@.map_values(|s: String| s@),
            is_permutation(r@, i as nat),
            ordered_by(kv, r@),
            r@ == insertion_order(kv, i as nat),
        decreases keys@.len() - i,
    {
        // The first place whose key comes strictly after the new one.
        let mut p: usize = 0;
        while p < r.len() && !text_less(keys[i].as_str(), keys[r[p]].as_str())
            invariant
                p <= r@.len(),
                i < keys@.len(),
                kv == keys@.map_values(|s: String| s@),
                is_permutation(r@, i as nat),
                forall|j: int| 0 <= j < p ==> text_le(kv[#[trigger] r@[j] as int], kv[i as int]),
                insert_pos(kv, r@, kv[i as int], 0) == insert_pos(kv, r@, kv[i as int], p as int),
            decreases r@.len() - p,
        {
            assert(kv[r@[p as int] as int] == keys@[r@[p as int] as int]@);
            p = p + 1;
        }
        let ghost old_r = r@;
        proof {
            assert(insert_pos(kv, r@, kv[i as int], 0) == p);
            if p < r@.len() {
                assert(kv[r@[p as int] as int] == keys@[r@[p as int] as int]@);
                assert(text_lt(kv[i as int], kv[r@[p as int] as int]));
                lemma_text_lt_asymmetric(kv[i as int], kv[r@[p as int] as int]);
            }
        }
        proof {
            lemma_insert_keeps_order(kv, old_r, p as int, i);
        }
        r.insert(p, i);
        assert(r@ =~= old_r.insert(p as int, i));
        i = i + 1;
    }
    r
}

} // verus!
