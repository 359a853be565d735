use vstd::prelude::*;

use vstd::relations::{sorted_by, total_ordering};
use vstd::seq_lib::lemma_sorted_unique;

use crate::text::{append_chars, chars_equal};

verus! {

/// One deferred segment `name*position=value` of an RFC 2231 parameter.
pub struct Continuation {
    pub name: Vec<char>,
    pub position: u32,
    pub value: Vec<char>,
}

pub type Segment = (Seq<char>, u32, Seq<char>);

pub type Pair = (Seq<char>, Seq<char>);

impl View for Continuation {
    type V = Segment;

    open spec fn view(&self) -> Segment {
        (self.name@, self.position, self.value@)
    }
}

/// The segments that the vector holds.
pub open spec fn segments_of(v: Seq<Continuation>) -> Seq<Segment> {
    v.map_values(|c: Continuation| c@)
}

/// The name and value pairs that the vector holds.
pub open spec fn pairs_of(v: Seq<(Vec<char>, Vec<char>)>) -> Seq<Pair> {
    v.map_values(|p: (Vec<char>, Vec<char>)| (p.0@, p.1@))
}

/// Lexicographic order of code points, from index `i` on.
pub open spec fn chars_lt_from(a: Seq<char>, b: Seq<char>, i: int) -> bool
    decreases a.len() - i,
{
    if i >= a.len() {
        i < b.len()
    } else if i >= b.len() {
        false
    } else if a[i] != b[i] {
        (a[i] as u32) < (b[i] as u32)
    } else {
        chars_lt_from(a, b, i + 1)
    }
}

/// `a` comes before `b` in lexicographic order of code points.
pub open spec fn chars_lt(a: Seq<char>, b: Seq<char>) -> bool {
    chars_lt_from(a, b, 0)
}

/// Segments are ordered by name, then position, then value.
pub open spec fn segment_le(x: Segment, y: Segment) -> bool {
    chars_lt(x.0, y.0) || (x.0 == y.0 && (x.1 < y.1 || (x.1 == y.1 && !chars_lt(y.2, x.2))))
}

/// The order of segments, as a relation.
pub open spec fn segment_order() -> spec_fn(Segment, Segment) -> bool {
    |x: Segment, y: Segment| segment_le(x, y)
}

/// `x` put into `r` before the first element that it does not follow.
pub open spec fn insert_sorted(x: Segment, r: Seq<Segment>) -> Seq<Segment>
    decreases r.len(),
{
    if r.len() == 0 {
        seq![x]
    } else if segment_le(x, r[0]) {
        seq![x] + r
    } else {
        seq![r[0]] + insert_sorted(x, r.drop_first())
    }
}

/// The segments in ascending order.
pub open spec fn sort_segments(s: Seq<Segment>) -> Seq<Segment>
    decreases s.len(),
{
    if s.len() == 0 {
        s
    } else {
        insert_sorted(s[0], sort_segments(s.drop_first()))
    }
}

/// The first index from `i` on whose pair is named `name`; the length where none is.
pub open spec fn find_name_from(attrs: Seq<Pair>, name: Seq<char>, i: int) -> int
    decreases attrs.len() - i,
{
    if i >= attrs.len() {
        attrs.len() as int
    } else if attrs[i].0 == name {
        i
    } else {
        find_name_from(attrs, name, i + 1)
    }
}

/// The first index whose pair is named `name`; the length where none is.
pub open spec fn find_name(attrs: Seq<Pair>, name: Seq<char>) -> int {
    find_name_from(attrs, name, 0)
}

/// `p` joins the pairs: it replaces the first pair of its name, or comes
/// last where there is none.
pub open spec fn put_pair(attrs: Seq<Pair>, p: Pair) -> Seq<Pair> {
    let i = find_name(attrs, p.0);
    if i < attrs.len() {
        attrs.update(i, p)
    } else {
        attrs.push(p)
    }
}

/// One segment joins the pairs: its value is appended to the first pair of
/// its name, or it becomes a new pair.
pub open spec fn merge_segment(attrs: Seq<Pair>, c: Segment) -> Seq<Pair> {
    let i = find_name(attrs, c.0);
    if i < attrs.len() {
        attrs.update(i, (attrs[i].0, attrs[i].1 + c.2))
    } else {
        attrs.push((c.0, c.2))
    }
}

/// The pairs once the segments have joined them one after another.
pub open spec fn merge_segments(attrs: Seq<Pair>, cs: Seq<Segment>) -> Seq<Pair>
    decreases cs.len(),
{
    if cs.len() == 0 {
        attrs
    } else {
        merge_segments(merge_segment(attrs, cs[0]), cs.drop_first())
    }
}

/// The pairs once every deferred segment has joined them in ascending order.
pub open spec fn reassemble(attrs: Seq<Pair>, cs: Seq<Segment>) -> Seq<Pair> {
    merge_segments(attrs, sort_segments(cs))
}

/// The index that `find_name_from` gives lies in `[i, len]`, and names `name`
/// where it is not the length.
pub proof fn lemma_find_name_bounds(attrs: Seq<Pair>, name: Seq<char>, i: int)
    requires
        0 <= i <= attrs.len(),
    ensures
        i <= find_name_from(attrs, name, i) <= attrs.len(),
        find_name_from(attrs, name, i) < attrs.len() ==> attrs[find_name_from(attrs, name, i)].0 == name,
        find_name_from(attrs, name, i) == attrs.len() ==> forall|k: int| i <= k < attrs.len() ==> #[trigger] attrs[k].0 != name,
    decreases attrs.len() - i,
{
    if i < attrs.len() && attrs[i].0 != name {
        lemma_find_name_bounds(attrs, name, i + 1);
    }
}

/// Puts the pair `(name, value)` among the pairs as `put_pair` describes.
pub fn put_attribute(attributes: &mut Vec<(Vec<char>, Vec<char>)>, name: Vec<char>, value: Vec<char>)
    ensures
        pairs_of(final(attributes)@) == put_pair(pairs_of(old(attributes)@), (name@, value@)),
{
    let ghost before = pairs_of(attributes@);
    let mut i: usize = 0;
    while i < attributes.len() && !chars_equal(attributes[i].0.as_slice(), name.as_slice())
        invariant
            i <= attributes@.len(),
            before == pairs_of(attributes@),
            attributes@ == old(attributes)@,
            find_name_from(before, name@, i as int) == find_name(before, name@),
        decreases attributes@.len() - i,
    {
        i = i + 1;
    }
    let ghost p = (name@, value@);
    if i < attributes.len() {
        attributes.set(i, (name, value));
        assert(pairs_of(attributes@) =~= before.update(i as int, p));
    } else {
        attributes.push((name, value));
        assert(pairs_of(attributes@) =~= before.push(p));
    }
}

/// Whether `a` comes before `b` in lexicographic order of code points.
pub fn chars_less(a: &[char], b: &[char]) -> (r: bool)
    ensures
        r == chars_lt(a@, b@),
{
    let mut i: usize = 0;
    while i < a.len() && i < b.len() && a[i] == b[i]
        invariant
            i <= a@.len(),
            i <= b@.len(),
            chars_lt_from(a@, b@, i as int) == chars_lt(a@, b@),
        decreases a@.len() - i,
    {
        i = i + 1;
    }
    if i >= a.len() {
        i < b.len()
    } else if i >= b.len() {
        false
    } else {
        (a[i] as u32) < (b[i] as u32)
    }
}

/// Whether `x` comes before `y`, or equals it, in the order of segments.
pub fn segment_precedes(x: &Continuation, y: &Continuation) -> (r: bool)
    ensures
        r == segment_le(x@, y@),
{
    if chars_less(x.name.as_slice(), y.name.as_slice()) {
        return true;
    }
    if !chars_equal(x.name.as_slice(), y.name.as_slice()) {
        return false;
    }
    if x.position != y.position {
        return x.position < y.position;
    }
    !chars_less(y.value.as_slice(), x.value.as_slice())
}

proof fn lemma_insert_at(x: Segment, r: Seq<Segment>, j: int)
    requires
        0 <= j <= r.len(),
        forall|k: int| 0 <= k < j ==> !segment_le(x, #[trigger] r[k]),
        j < r.len() ==> segment_le(x, r[j]),
    ensures
        insert_sorted(x, r) == r.take(j).push(x) + r.skip(j),
    decreases r.len(),
{
    if r.len() == 0 {
        assert(r.take(j).push(x) + r.skip(j) =~= seq![x]);
    } else if j == 0 {
        assert(r.take(j).push(x) + r.skip(j) =~= seq![x] + r);
    } else {
        let t = r.drop_first();
        assert forall|k: int| 0 <= k < j - 1 implies !segment_le(x, #[trigger] t[k]) by {
            assert(t[k] == r[k + 1]);
        }
        lemma_insert_at(x, t, j - 1);
        assert(r.take(j).push(x) + r.skip(j) =~= seq![r[0]] + (t.take(j - 1).push(x) + t.skip(j - 1)));
    }
}

/// Sorts the segments in ascending order, consuming them.
pub fn sort_continuations(s: Vec<Continuation>) -> (r: Vec<Continuation>)
    ensures
        segments_of(r@) == sort_segments(segments_of(s@)),
{
    let ghost orig = segments_of(s@);
    let ghost n = s@.len() as int;
    let mut rest = s;
    let mut out: Vec<Continuation> = Vec::new();
    assert(orig.subrange(n, n) =~= Seq::<Segment>::empty());
    while rest.len() > 0
        invariant
            n == orig.len(),
            rest@.len() <= n,
            segments_of(rest@) == orig.take(rest@.len() as int),
            segments_of(out@) == sort_segments(orig.subrange(rest@.len() as int, n)),
        decreases rest@.len(),
    {
        let ghost k = rest@.len() as int;
        let x = rest.pop().unwrap();
        assert(segments_of(rest@) =~= orig.take(k - 1));
        assert(x@ == orig[k - 1]) by {
            assert(orig.take(k)[k - 1] == orig[k - 1]);
        }
        let ghost sorted = segments_of(out@);
        let mut j: usize = 0;
        while j < out.len() && !segment_precedes(&x, &out[j])
            invariant
                j <= out@.len(),
                sorted == segments_of(out@),
                forall|m: int| 0 <= m < j ==> !segment_le(x@, #[trigger] sorted[m]),
            decreases out@.len() - j,
        {
            j = j + 1;
        }
        proof {
            lemma_insert_at(x@, sorted, j as int);
            assert(orig.subrange(k - 1, n).drop_first() =~= orig.subrange(k, n));
        }
        out.insert(j, x);
        assert(segments_of(out@) =~= sorted.take(j as int).push(x@) + sorted.skip(j as int));
    }
    assert(orig.subrange(0, n) =~= orig);
    out
}

/// Appends the value of each segment, in ascending order, to the first pair
/// of its name, or adds the segment as a new pair.
pub fn merge_continuations(attributes: &mut Vec<(Vec<char>, Vec<char>)>, continuations: Vec<Continuation>)
    ensures
        pairs_of(final(attributes)@) == reassemble(pairs_of(old(attributes)@), segments_of(continuations@)),
{
    let sorted = sort_continuations(continuations);
    let ghost cs = segments_of(sorted@);
    let mut rest = sorted;
    let ghost total = cs.len() as int;
    assert(cs.subrange(0, total) =~= cs);
    while rest.len() > 0
        invariant
            total == cs.len(),
            rest@.len() <= total,
            segments_of(rest@) == cs.subrange(total - rest@.len(), total),
            merge_segments(pairs_of(attributes@), cs.subrange(total - rest@.len(), total)) == reassemble(
                pairs_of(old(attributes)@),
                segments_of(continuations@),
            ),
        decreases rest@.len(),
    {
        let ghost k = rest@.len() as int;
        let ghost pending = cs.subrange(total - k, total);
        let ghost old_rest = rest@;
        let c = rest.remove(0);
        assert(rest@ =~= old_rest.drop_first());
        assert(c@ == pending[0]);
        assert forall|m: int| 0 <= m < k - 1 implies #[trigger] segments_of(rest@)[m] == cs.subrange(total - (k - 1), total)[m] by {
            assert(rest@[m] == old_rest[m + 1]);
            assert(segments_of(old_rest)[m + 1] == pending[m + 1]);
        }
        assert(segments_of(rest@) =~= cs.subrange(total - (k - 1), total));
        assert(pending.drop_first() =~= cs.subrange(total - (k - 1), total));
        let ghost before = pairs_of(attributes@);
        let mut i: usize = 0;
        while i < attributes.len() && !chars_equal(attributes[i].0.as_slice(), c.name.as_slice())
            invariant
                i <= attributes@.len(),
                before == pairs_of(attributes@),
                find_name_from(before, c@.0, i as int) == find_name(before, c@.0),
            decreases attributes@.len() - i,
        {
            i = i + 1;
        }
        if i < attributes.len() {
            let mut joined: Vec<char> = Vec::new();
            append_chars(&mut joined, attributes[i].1.as_slice());
            append_chars(&mut joined, c.value.as_slice());
            let Continuation { name, position: _, value: _ } = c;
            attributes.set(i, (name, joined));
            assert(pairs_of(attributes@) =~= merge_segment(before, c@));
        } else {
            let Continuation { name, position: _, value } = c;
            attributes.push((name, value));
            assert(pairs_of(attributes@) =~= merge_segment(before, c@));
        }
    }
}

proof fn lemma_chars_lt_irreflexive(a: Seq<char>, i: int)
    requires
        0 <= i,
    ensures
        !chars_lt_from(a, a, i),
    decreases a.len() - i,
{
    if i < a.len() {
        lemma_chars_lt_irreflexive(a, i + 1);
    }
}

proof fn lemma_chars_lt_asymmetric(a: Seq<char>, b: Seq<char>, i: int)
    requires
        0 <= i,
        chars_lt_from(a, b, i),
    ensures
        !chars_lt_from(b, a, i),
    decreases a.len() - i,
{
    if i < a.len() && i < b.len() && a[i] == b[i] {
        lemma_chars_lt_asymmetric(a, b, i + 1);
    }
}

proof fn lemma_chars_lt_transitive(a: Seq<char>, b: Seq<char>, c: Seq<char>, i: int)
    requires
        0 <= i,
        chars_lt_from(a, b, i),
        chars_lt_from(b, c, i),
    ensures
        chars_lt_from(a, c, i),
    decreases a.len() - i,
{
    if i < a.len() && i < b.len() && i < c.len() && a[i] == b[i] && b[i] == c[i] {
        lemma_chars_lt_transitive(a, b, c, i + 1);
    }
}

proof fn lemma_chars_lt_connected(a: Seq<char>, b: Seq<char>, i: int)
    requires
        0 <= i <= a.len(),
        i <= b.len(),
        a.take(i) == b.take(i),
    ensures
        a == b || chars_lt_from(a, b, i) || chars_lt_from(b, a, i),
    decreases a.len() - i,
{
    if i == a.len() && i == b.len() {
        assert(a =~= a.take(i));
        assert(b =~= b.take(i));
    } else if i < a.len() && i < b.len() && a[i] == b[i] {
        assert(a.take(i + 1) =~= a.take(i).push(a[i]));
        assert(b.take(i + 1) =~= b.take(i).push(b[i]));
        lemma_chars_lt_connected(a, b, i + 1);
    } else if i < a.len() && i < b.len() {
        if (a[i] as u32) == (b[i] as u32) {
            vstd::utf8::char_u32_cast(a[i], a[i] as u32);
            vstd::utf8::char_u32_cast(b[i], b[i] as u32);
        }
    }
}

/// Segments are totally ordered by name, position and value.
pub proof fn lemma_segment_order()
    ensures
        total_ordering(segment_order()),
{
    let leq = segment_order();
    assert forall|x: Segment| #[trigger] leq(x, x) by {
        lemma_chars_lt_irreflexive(x.2, 0);
    }
    assert forall|x: Segment, y: Segment| #[trigger] leq(x, y) && #[trigger] leq(y, x) implies x == y by {
        assert(x.2.take(0) =~= y.2.take(0));
        lemma_chars_lt_irreflexive(x.0, 0);
        lemma_chars_lt_irreflexive(y.0, 0);
        if chars_lt(x.0, y.0) {
            lemma_chars_lt_asymmetric(x.0, y.0, 0);
        }
        if chars_lt(y.0, x.0) {
            lemma_chars_lt_asymmetric(y.0, x.0, 0);
        }
        assert(x.0 == y.0);
        assert(x.1 == y.1);
        lemma_chars_lt_connected(x.2, y.2, 0);
    }
    assert forall|x: Segment, y: Segment, z: Segment| #[trigger] leq(x, y) && #[trigger] leq(y, z) implies leq(x, z) by {
        if chars_lt(x.0, y.0) && chars_lt(y.0, z.0) {
            lemma_chars_lt_transitive(x.0, y.0, z.0, 0);
        }
        if x.0 == y.0 && y.0 == z.0 && x.1 == y.1 && y.1 == z.1 {
            if chars_lt(z.2, x.2) {
                assert(y.2.take(0) =~= x.2.take(0));
                lemma_chars_lt_connected(y.2, x.2, 0);
                if chars_lt(y.2, x.2) {
                } else if y.2 == x.2 {
                } else {
                    lemma_chars_lt_transitive(z.2, x.2, y.2, 0);
                }
            }
        }
    }
    assert forall|x: Segment, y: Segment| #[trigger] leq(x, y) || #[trigger] leq(y, x) by {
        assert(x.0.take(0) =~= y.0.take(0));
        assert(x.2.take(0) =~= y.2.take(0));
        lemma_chars_lt_connected(x.0, y.0, 0);
        lemma_chars_lt_connected(x.2, y.2, 0);
        if chars_lt(x.2, y.2) {
            lemma_chars_lt_asymmetric(x.2, y.2, 0);
        }
    }
}

proof fn lemma_insert_sorted(x: Segment, r: Seq<Segment>)
    requires
        sorted_by(r, segment_order()),
    ensures
        sorted_by(insert_sorted(x, r), segment_order()),
        insert_sorted(x, r).to_multiset() == r.to_multiset().insert(x),
    decreases r.len(),
{
    broadcast use vstd::seq_lib::group_to_multiset_ensures;

    let leq = segment_order();
    lemma_segment_order();
    if r.len() == 0 {
        assert(seq![x] =~= Seq::<Segment>::empty().push(x));
    } else if segment_le(x, r[0]) {
        let res = seq![x] + r;
        assert(leq(x, r[0]));
        assert forall|i: int, j: int| 0 <= i < j < res.len() implies #[trigger] leq(res[i], res[j]) by {
            if i == 0 {
                assert(res[j] == r[j - 1]);
                if j > 1 {
                    assert(leq(r[0], r[j - 1]));
                }
            } else {
                assert(res[i] == r[i - 1] && res[j] == r[j - 1]);
            }
        }
        assert(res =~= r.insert(0, x));
        vstd::seq_lib::to_multiset_insert(r, 0, x);
    } else {
        let t = r.drop_first();
        assert forall|i: int, j: int| 0 <= i < j < t.len() implies #[trigger] leq(t[i], t[j]) by {
            assert(leq(r[i + 1], r[j + 1]));
        }
        lemma_insert_sorted(x, t);
        let rest = insert_sorted(x, t);
        let res = seq![r[0]] + rest;
        assert(!leq(x, r[0]));
        assert(leq(r[0], x));
        assert forall|k: int| 0 <= k < rest.len() implies #[trigger] leq(r[0], rest[k]) by {
            assert(rest.to_multiset().count(rest[k]) > 0);
            assert(rest.to_multiset() == t.to_multiset().insert(x));
            if rest[k] != x {
                assert(t.to_multiset().count(rest[k]) > 0);
                assert(t.contains(rest[k]));
                let m = choose|m: int| 0 <= m < t.len() && t[m] == rest[k];
                assert(leq(r[0], r[m + 1]));
            }
        }
        assert forall|i: int, j: int| 0 <= i < j < res.len() implies #[trigger] leq(res[i], res[j]) by {
            if i == 0 {
                assert(leq(r[0], rest[j - 1]));
            } else {
                assert(res[i] == rest[i - 1] && res[j] == rest[j - 1]);
            }
        }
        assert(res =~= rest.insert(0, r[0]));
        vstd::seq_lib::to_multiset_insert(rest, 0, r[0]);
        assert(r =~= t.insert(0, r[0]));
        vstd::seq_lib::to_multiset_insert(t, 0, r[0]);
    }
}

/// Sorting keeps the segments and puts them in order.
pub proof fn lemma_sort_segments(s: Seq<Segment>)
    ensures
        sorted_by(sort_segments(s), segment_order()),
        sort_segments(s).to_multiset() == s.to_multiset(),
    decreases s.len(),
{
    broadcast use vstd::seq_lib::group_to_multiset_ensures;

    if s.len() > 0 {
        let t = s.drop_first();
        lemma_sort_segments(t);
        lemma_insert_sorted(s[0], sort_segments(t));
        assert(s =~= t.insert(0, s[0]));
        vstd::seq_lib::to_multiset_insert(t, 0, s[0]);
    }
}

/// No two pairs share a name.
pub open spec fn unique_names(a: Seq<Pair>) -> bool {
    forall|i: int, j: int| 0 <= i < j < a.len() ==> #[trigger] a[i].0 != #[trigger] a[j].0
}

/// Putting a pair keeps the names unique.
pub proof fn lemma_put_pair_unique(a: Seq<Pair>, p: Pair)
    requires
        unique_names(a),
    ensures
        unique_names(put_pair(a, p)),
{
    lemma_find_name_bounds(a, p.0, 0);
    let r = put_pair(a, p);
    assert forall|i: int, j: int| 0 <= i < j < r.len() implies #[trigger] r[i].0 != #[trigger] r[j].0 by {
        if j == a.len() {
            assert(a[i].0 != p.0);
        }
    }
}

/// Reassembly keeps the names unique.
pub proof fn lemma_merge_segments_unique(a: Seq<Pair>, cs: Seq<Segment>)
    requires
        unique_names(a),
    ensures
        unique_names(merge_segments(a, cs)),
    decreases cs.len(),
{
    if cs.len() > 0 {
        let c = cs[0];
        lemma_find_name_bounds(a, c.0, 0);
        let r = merge_segment(a, c);
        assert forall|i: int, j: int| 0 <= i < j < r.len() implies #[trigger] r[i].0 != #[trigger] r[j].0 by {
            if j == a.len() {
                assert(a[i].0 != c.0);
            }
        }
        lemma_merge_segments_unique(r, cs.drop_first());
    }
}

/// Reassembly does not depend on the order in which the segments arrived:
/// any two arrangements of the same segments give the same parameters.
pub proof fn lemma_reassemble_order_independent(attrs: Seq<Pair>, c1: Seq<Segment>, c2: Seq<Segment>)
    requires
        c1.to_multiset() == c2.to_multiset(),
    ensures
        reassemble(attrs, c1) == reassemble(attrs, c2),
{
    lemma_segment_order();
    lemma_sort_segments(c1);
    lemma_sort_segments(c2);
    lemma_sorted_unique(sort_segments(c1), sort_segments(c2), segment_order());
    assert(sort_segments(c1) == sort_segments(c2));
}

} // verus!
