//! Shapes of cells on a grid, and the form by which two shapes are told to
//! be the same up to a shift, a turn or a mirror image.
//!
//! A shape is a list of points `(row, column)`. Its normal form is the list
//! sorted, and shifted so that its least row and its least column are 0.
//! Its invariant is the least normal form among its eight images under the
//! symmetries of the square.

use vstd::prelude::*;
use vstd::relations::{sorted_by, total_ordering};
use vstd::seq_lib::{
    lemma_sorted_unique, to_multiset_build, to_multiset_contains, to_multiset_insert,
    to_multiset_len, to_multiset_remove,
};

verus! {

/// A point of the grid: its row and its column.
pub type Point = (int, int);

/// A symmetry of the square that keeps the origin: it may swap the two
/// coordinates, and then it may negate each of them.
pub ghost struct Sym {
    pub swap: bool,
    pub flip0: bool,
    pub flip1: bool,
}

/// The image of a point under a symmetry.
pub open spec fn act(e: Sym, p: Point) -> Point {
    let q = if e.swap {
        (p.1, p.0)
    } else {
        p
    };
    (
        if e.flip0 {
            -q.0
        } else {
            q.0
        },
        if e.flip1 {
            -q.1
        } else {
            q.1
        },
    )
}

/// The symmetry that is `a` followed by `b`.
pub open spec fn then(a: Sym, b: Sym) -> Sym {
    Sym {
        swap: a.swap != b.swap,
        flip0: b.flip0 != (if b.swap {
            a.flip1
        } else {
            a.flip0
        }),
        flip1: b.flip1 != (if b.swap {
            a.flip0
        } else {
            a.flip1
        }),
    }
}

/// The symmetry that leaves every point where it is.
pub open spec fn identity() -> Sym {
    Sym { swap: false, flip0: false, flip1: false }
}

/// The quarter turn: `(x, y)` goes to `(y, -x)`.
pub open spec fn quarter() -> Sym {
    Sym { swap: true, flip0: false, flip1: true }
}

/// The mirror image: `(x, y)` goes to `(-x, y)`.
pub open spec fn mirror() -> Sym {
    Sym { swap: false, flip0: true, flip1: false }
}

/// The symmetry that undoes `e`.
pub open spec fn inverse(e: Sym) -> Sym {
    if e.swap {
        Sym { swap: true, flip0: e.flip1, flip1: e.flip0 }
    } else {
        e
    }
}

/// The order of points: by the row, then by the column.
pub open spec fn point_le(a: Point, b: Point) -> bool {
    a.0 < b.0 || (a.0 == b.0 && a.1 <= b.1)
}

/// `point_le` as a relation.
pub open spec fn point_order() -> spec_fn(Point, Point) -> bool {
    |a: Point, b: Point| point_le(a, b)
}

/// The least row of a shape.
pub open spec fn least0(s: Seq<Point>) -> int
    decreases s.len(),
{
    if s.len() <= 1 {
        s[0].0
    } else if s.last().0 < least0(s.drop_last()) {
        s.last().0
    } else {
        least0(s.drop_last())
    }
}

/// The least column of a shape.
pub open spec fn least1(s: Seq<Point>) -> int
    decreases s.len(),
{
    if s.len() <= 1 {
        s[0].1
    } else if s.last().1 < least1(s.drop_last()) {
        s.last().1
    } else {
        least1(s.drop_last())
    }
}

/// The shape shifted back by `d`.
pub open spec fn shifted(s: Seq<Point>, d: Point) -> Seq<Point> {
    Seq::new(s.len(), |i: int| (s[i].0 - d.0, s[i].1 - d.1))
}

/// The image of a shape under a symmetry, point by point.
pub open spec fn mapped(s: Seq<Point>, e: Sym) -> Seq<Point> {
    Seq::new(s.len(), |i: int| act(e, s[i]))
}

/// The normal form of a shape: sorted, with the least row and the least
/// column at 0.
pub open spec fn normalized(s: Seq<Point>) -> Seq<Point> {
    shifted(s.sort_by(point_order()), (least0(s), least1(s)))
}

/// The normal form of the image of a shape under a symmetry.
pub open spec fn image(s: Seq<Point>, e: Sym) -> Seq<Point> {
    normalized(mapped(s, e))
}

/// The shape turned by a quarter, in normal form.
pub open spec fn turned(s: Seq<Point>) -> Seq<Point> {
    image(s, quarter())
}

/// The mirror image of the shape, in normal form.
pub open spec fn mirrored(s: Seq<Point>) -> Seq<Point> {
    image(s, mirror())
}

/// The shapes agree before the place `k`, where `a` ends or has the smaller
/// point.
pub open spec fn shape_lt_at(a: Seq<Point>, b: Seq<Point>, k: int) -> bool {
    &&& 0 <= k <= a.len()
    &&& k < b.len()
    &&& forall|i: int| 0 <= i < k ==> a[i] == b[i]
    &&& k < a.len() ==> point_le(a[k], b[k]) && a[k] != b[k]
}

/// The order of shapes: at the first place where they differ `a` has the
/// smaller point, or `a` is a proper prefix of `b`.
pub open spec fn shape_lt(a: Seq<Point>, b: Seq<Point>) -> bool {
    exists|k: int| shape_lt_at(a, b, k)
}

/// `a` is `b` or smaller.
pub open spec fn shape_le(a: Seq<Point>, b: Seq<Point>) -> bool {
    a == b || shape_lt(a, b)
}

/// The eight symmetries, in the order in which the images of a shape are
/// gone through: one, two, three and four quarter turns, each followed by
/// the same with a mirror image behind it.
pub open spec fn sym(i: int) -> Sym {
    if i == 0 {
        quarter()
    } else if i == 1 {
        then(quarter(), mirror())
    } else if i == 2 {
        then(quarter(), quarter())
    } else if i == 3 {
        then(then(quarter(), quarter()), mirror())
    } else if i == 4 {
        then(then(quarter(), quarter()), quarter())
    } else if i == 5 {
        then(then(then(quarter(), quarter()), quarter()), mirror())
    } else if i == 6 {
        identity()
    } else {
        mirror()
    }
}

/// The eight images of a shape.
pub open spec fn images(s: Seq<Point>) -> Seq<Seq<Point>> {
    Seq::new(8, |i: int| image(s, sym(i)))
}

/// The least shape of a list that is not empty.
pub open spec fn least_of(list: Seq<Seq<Point>>) -> Seq<Point>
    decreases list.len(),
{
    if list.len() <= 1 {
        list[0]
    } else if shape_lt(list.last(), least_of(list.drop_last())) {
        list.last()
    } else {
        least_of(list.drop_last())
    }
}

/// The invariant of a shape: the least of its eight images.
pub open spec fn invariant_of(s: Seq<Point>) -> Seq<Point> {
    least_of(images(s))
}

/// Following one symmetry by another is applying the one, then the other.
pub proof fn lemma_then(a: Sym, b: Sym, p: Point)
    ensures
        act(then(a, b), p) == act(b, act(a, p)),
        act(identity(), p) == p,
        then(a, inverse(a)) == identity(),
        then(inverse(a), a) == identity(),
{
}

/// Every symmetry is one of the eight.
pub proof fn lemma_sym_all(e: Sym) -> (i: int)
    ensures
        0 <= i < 8,
        sym(i) == e,
{
    if e.swap {
        if e.flip0 {
            if e.flip1 {
                assert(sym(1) == e);
                1
            } else {
                assert(sym(4) == e);
                4
            }
        } else {
            if e.flip1 {
                0
            } else {
                assert(sym(5) == e);
                5
            }
        }
    } else {
        if e.flip0 {
            if e.flip1 {
                assert(sym(2) == e);
                2
            } else {
                7
            }
        } else {
            if e.flip1 {
                assert(sym(3) == e);
                3
            } else {
                6
            }
        }
    }
}

/// The order of points is a total order.
pub proof fn lemma_point_order_total()
    ensures
        total_ordering(point_order()),
{
    let r = point_order();
    assert forall|a: Point| #[trigger] r(a, a) by {}
    assert forall|a: Point, b: Point| #[trigger] r(a, b) && #[trigger] r(b, a) implies a == b by {}
    assert forall|a: Point, b: Point, c: Point| #[trigger] r(a, b) && #[trigger] r(b, c) implies r(
        a,
        c,
    ) by {}
    assert forall|a: Point, b: Point| #[trigger] r(a, b) || #[trigger] r(b, a) by {}
}

/// The least row and the least column of a shape are a row and a column of
/// it, and no row or column of it is smaller.
pub proof fn lemma_least(s: Seq<Point>)
    requires
        s.len() > 0,
    ensures
        exists|i: int| 0 <= i < s.len() && s[i].0 == least0(s),
        exists|i: int| 0 <= i < s.len() && s[i].1 == least1(s),
        forall|i: int| 0 <= i < s.len() ==> least0(s) <= s[i].0 && least1(s) <= s[i].1,
    decreases s.len(),
{
    if s.len() <= 1 {
        assert(s[0].0 == least0(s));
        assert(s[0].1 == least1(s));
    } else {
        let t = s.drop_last();
        lemma_least(t);
        let i0 = choose|i: int| 0 <= i < t.len() && t[i].0 == least0(t);
        let i1 = choose|i: int| 0 <= i < t.len() && t[i].1 == least1(t);
        assert(s[i0] == t[i0] && s[i1] == t[i1]);
        let n = s.len() - 1;
        if s.last().0 < least0(t) {
            assert(s[n].0 == least0(s));
        } else {
            assert(s[i0].0 == least0(s));
        }
        if s.last().1 < least1(t) {
            assert(s[n].1 == least1(s));
        } else {
            assert(s[i1].1 == least1(s));
        }
        assert forall|i: int| 0 <= i < s.len() implies least0(s) <= s[i].0 && least1(s)
            <= s[i].1 by {
            if i < n {
                assert(s[i] == t[i]);
            }
        }
    }
}

/// A row of a shape below which the shape has no row is its least row, and
/// so for columns.
pub proof fn lemma_least_unique(s: Seq<Point>, m0: int, m1: int)
    requires
        s.len() > 0,
        exists|i: int| 0 <= i < s.len() && s[i].0 == m0,
        exists|i: int| 0 <= i < s.len() && s[i].1 == m1,
        forall|i: int| 0 <= i < s.len() ==> m0 <= s[i].0 && m1 <= s[i].1,
    ensures
        least0(s) == m0,
        least1(s) == m1,
{
    lemma_least(s);
    let a = choose|i: int| 0 <= i < s.len() && s[i].0 == m0;
    let b = choose|i: int| 0 <= i < s.len() && s[i].1 == m1;
    let c = choose|i: int| 0 <= i < s.len() && s[i].0 == least0(s);
    let d = choose|i: int| 0 <= i < s.len() && s[i].1 == least1(s);
    assert(m0 <= s[c].0 && least0(s) <= s[a].0);
    assert(m1 <= s[d].1 && least1(s) <= s[b].1);
}

/// Two lists with the same entries, each as often, have the same entries,
/// each as often, after a function is applied to each entry.
pub proof fn lemma_map_multiset<A, B>(a: Seq<A>, b: Seq<A>, f: spec_fn(A) -> B)
    requires
        a.to_multiset() == b.to_multiset(),
    ensures
        a.map_values(f).to_multiset() == b.map_values(f).to_multiset(),
    decreases a.len(),
{
    broadcast use vstd::multiset::group_multiset_axioms;

    to_multiset_len(a);
    to_multiset_len(b);
    if a.len() == 0 {
        assert(a.map_values(f) =~= b.map_values(f));
    } else {
        let x = a.last();
        let a1 = a.drop_last();
        assert(a =~= a1.push(x));
        to_multiset_build(a1, x);
        to_multiset_contains(b, x);
        assert(a.to_multiset().count(x) > 0);
        let j = choose|j: int| 0 <= j < b.len() && b[j] == x;
        let b1 = b.remove(j);
        to_multiset_remove(b, j);
        assert(a1.to_multiset() =~= b1.to_multiset());
        lemma_map_multiset(a1, b1, f);
        let ma = a.map_values(f);
        let mb = b.map_values(f);
        assert(ma =~= a1.map_values(f).push(f(x)));
        to_multiset_build(a1.map_values(f), f(x));
        assert(mb.remove(j) =~= b1.map_values(f));
        to_multiset_remove(mb, j);
        to_multiset_contains(mb, f(x));
        assert(mb[j] == f(x));
        assert(mb.contains(f(x)));
        assert(ma.to_multiset() =~= mb.to_multiset());
    }
}

/// `shifted` as a function on points.
pub open spec fn shift_fn(d: Point) -> spec_fn(Point) -> Point {
    |p: Point| (p.0 - d.0, p.1 - d.1)
}

/// `act` as a function on points.
pub open spec fn act_fn(e: Sym) -> spec_fn(Point) -> Point {
    |p: Point| act(e, p)
}

/// Two shapes with the same points, each as often, have the same points,
/// each as often, after a shift and after a symmetry.
pub proof fn lemma_same_points(a: Seq<Point>, b: Seq<Point>, d: Point, e: Sym)
    requires
        a.to_multiset() == b.to_multiset(),
    ensures
        shifted(a, d).to_multiset() == shifted(b, d).to_multiset(),
        mapped(a, e).to_multiset() == mapped(b, e).to_multiset(),
        a.len() == b.len(),
{
    to_multiset_len(a);
    to_multiset_len(b);
    lemma_map_multiset(a, b, shift_fn(d));
    lemma_map_multiset(a, b, act_fn(e));
    assert(shifted(a, d) =~= a.map_values(shift_fn(d)));
    assert(shifted(b, d) =~= b.map_values(shift_fn(d)));
    assert(mapped(a, e) =~= a.map_values(act_fn(e)));
    assert(mapped(b, e) =~= b.map_values(act_fn(e)));
}

/// What sorting a shape gives: the same points, each as often, in order.
pub proof fn lemma_sorted(s: Seq<Point>)
    ensures
        sorted_by(s.sort_by(point_order()), point_order()),
        s.sort_by(point_order()).to_multiset() == s.to_multiset(),
        s.sort_by(point_order()).len() == s.len(),
        forall|p: Point| s.sort_by(point_order()).contains(p) <==> s.contains(p),
{
    lemma_point_order_total();
    s.lemma_sort_by_ensures(point_order());
    let t = s.sort_by(point_order());
    to_multiset_len(s);
    to_multiset_len(t);
    assert forall|p: Point| t.contains(p) <==> s.contains(p) by {
        to_multiset_contains(s, p);
        to_multiset_contains(t, p);
    }
}

/// A sorted shape with the same points as `s`, each as often, is `s`
/// sorted.
pub proof fn lemma_sort_unique(s: Seq<Point>, t: Seq<Point>)
    requires
        sorted_by(t, point_order()),
        t.to_multiset() == s.to_multiset(),
    ensures
        t == s.sort_by(point_order()),
{
    lemma_sorted(s);
    lemma_point_order_total();
    lemma_sorted_unique(t, s.sort_by(point_order()), point_order());
}

/// Two shapes with the same points, each as often, have the same least
/// row, the same least column and the same normal form.
pub proof fn lemma_normalized_same_points(a: Seq<Point>, b: Seq<Point>)
    requires
        a.len() > 0,
        a.to_multiset() == b.to_multiset(),
    ensures
        least0(a) == least0(b),
        least1(a) == least1(b),
        normalized(a) == normalized(b),
{
    to_multiset_len(a);
    to_multiset_len(b);
    lemma_least(a);
    let i0 = choose|i: int| 0 <= i < a.len() && a[i].0 == least0(a);
    let i1 = choose|i: int| 0 <= i < a.len() && a[i].1 == least1(a);
    to_multiset_contains(a, a[i0]);
    to_multiset_contains(b, a[i0]);
    to_multiset_contains(a, a[i1]);
    to_multiset_contains(b, a[i1]);
    assert(a.contains(a[i0]) && a.contains(a[i1]));
    let j0 = choose|j: int| 0 <= j < b.len() && b[j] == a[i0];
    let j1 = choose|j: int| 0 <= j < b.len() && b[j] == a[i1];
    assert forall|j: int| 0 <= j < b.len() implies least0(a) <= b[j].0 && least1(a) <= b[j].1 by {
        to_multiset_contains(a, b[j]);
        to_multiset_contains(b, b[j]);
        assert(b.contains(b[j]));
        let i = choose|i: int| 0 <= i < a.len() && a[i] == b[j];
        assert(least0(a) <= a[i].0);
    }
    assert(b[j0].0 == least0(a));
    assert(b[j1].1 == least1(a));
    lemma_least_unique(b, least0(a), least1(a));
    lemma_sorted(a);
    lemma_sort_unique(b, a.sort_by(point_order()));
}

/// The least row and the least column of a shifted shape are those of the
/// shape, shifted.
pub proof fn lemma_least_shifted(s: Seq<Point>, d: Point)
    requires
        s.len() > 0,
    ensures
        least0(shifted(s, d)) == least0(s) - d.0,
        least1(shifted(s, d)) == least1(s) - d.1,
{
    lemma_least(s);
    let t = shifted(s, d);
    let i0 = choose|i: int| 0 <= i < s.len() && s[i].0 == least0(s);
    let i1 = choose|i: int| 0 <= i < s.len() && s[i].1 == least1(s);
    assert(t[i0].0 == least0(s) - d.0);
    assert(t[i1].1 == least1(s) - d.1);
    lemma_least_unique(t, least0(s) - d.0, least1(s) - d.1);
}

/// Sorting a shifted shape gives the sorted shape, shifted.
pub proof fn lemma_sort_shifted(s: Seq<Point>, d: Point)
    ensures
        shifted(s, d).sort_by(point_order()) == shifted(s.sort_by(point_order()), d),
{
    lemma_sorted(s);
    let t = s.sort_by(point_order());
    lemma_same_points(t, s, d, identity());
    let u = shifted(t, d);
    assert(sorted_by(u, point_order())) by {
        assert forall|i: int, j: int| 0 <= i < j < u.len() implies #[trigger] point_order()(
            u[i],
            u[j],
        ) by {
            assert(point_order()(t[i], t[j]));
        }
    }
    lemma_sort_unique(shifted(s, d), u);
}

/// The normal form of a shifted shape is the normal form of the shape.
pub proof fn lemma_normalized_shifted(s: Seq<Point>, d: Point)
    requires
        s.len() > 0,
    ensures
        normalized(shifted(s, d)) == normalized(s),
{
    lemma_sort_shifted(s, d);
    lemma_least_shifted(s, d);
    let t = s.sort_by(point_order());
    assert(shifted(shifted(t, d), (least0(s) - d.0, least1(s) - d.1)) =~= shifted(
        t,
        (least0(s), least1(s)),
    ));
}

/// The image of the normal form of a shape is the image of the shape.
pub proof fn lemma_image_of_normalized(s: Seq<Point>, e: Sym)
    requires
        s.len() > 0,
    ensures
        image(normalized(s), e) == image(s, e),
        normalized(s).len() == s.len(),
{
    lemma_sorted(s);
    let t = s.sort_by(point_order());
    let l = (least0(s), least1(s));
    assert(mapped(shifted(t, l), e) =~= shifted(mapped(t, e), act(e, l)));
    lemma_normalized_shifted(mapped(t, e), act(e, l));
    lemma_same_points(t, s, l, e);
    lemma_normalized_same_points(mapped(t, e), mapped(s, e));
}

/// The image of an image of a shape is its image under the two symmetries,
/// one after the other.
pub proof fn lemma_image_of_image(s: Seq<Point>, a: Sym, b: Sym)
    requires
        s.len() > 0,
    ensures
        image(image(s, a), b) == image(s, then(a, b)),
        image(s, a).len() == s.len(),
{
    lemma_image_of_normalized(mapped(s, a), b);
    assert(mapped(mapped(s, a), b) =~= mapped(s, then(a, b))) by {
        assert forall|i: int| 0 <= i < s.len() implies mapped(mapped(s, a), b)[i] == mapped(
            s,
            then(a, b),
        )[i] by {
            lemma_then(a, b, s[i]);
        }
    }
}

/// The normal form of a normal form is the normal form.
pub proof fn lemma_normalize_twice(s: Seq<Point>)
    requires
        s.len() > 0,
    ensures
        normalized(normalized(s)) == normalized(s),
        image(s, identity()) == normalized(s),
{
    assert(mapped(s, identity()) =~= s);
    lemma_image_of_normalized(s, identity());
    assert(mapped(normalized(s), identity()) =~= normalized(s));
}

/// Four quarter turns and two mirror images bring a shape back to its
/// normal form.
pub proof fn lemma_turn_four_times(s: Seq<Point>)
    requires
        s.len() > 0,
    ensures
        turned(turned(turned(turned(s)))) == normalized(s),
        mirrored(mirrored(s)) == normalized(s),
{
    let ghost q = quarter();
    lemma_image_of_image(s, q, q);
    lemma_image_of_image(s, then(q, q), q);
    lemma_image_of_image(s, then(then(q, q), q), q);
    lemma_image_of_image(s, mirror(), mirror());
    lemma_normalize_twice(s);
}

/// The order of shapes is transitive.
pub proof fn lemma_shape_lt_transitive(a: Seq<Point>, b: Seq<Point>, c: Seq<Point>)
    requires
        shape_lt(a, b),
        shape_lt(b, c),
    ensures
        shape_lt(a, c),
{
    let k1 = choose|k: int| shape_lt_at(a, b, k);
    let k2 = choose|k: int| shape_lt_at(b, c, k);
    let k = if k1 <= k2 {
        k1
    } else {
        k2
    };
    assert(shape_lt_at(a, c, k));
}

/// No shape is smaller than itself, and of two shapes at most one is the
/// smaller.
pub proof fn lemma_shape_lt_asymmetric(a: Seq<Point>, b: Seq<Point>)
    requires
        shape_lt(a, b),
    ensures
        !shape_lt(b, a),
        a != b,
{
    let k1 = choose|k: int| shape_lt_at(a, b, k);
    if shape_lt(b, a) {
        let k2 = choose|k: int| shape_lt_at(b, a, k);
        assert(false);
    }
}

/// Two shapes that agree before the place `k` are equal, or one of them is
/// the smaller.
pub proof fn lemma_shape_total_from(a: Seq<Point>, b: Seq<Point>, k: int)
    requires
        0 <= k <= a.len(),
        k <= b.len(),
        forall|i: int| 0 <= i < k ==> a[i] == b[i],
    ensures
        shape_lt(a, b) || a == b || shape_lt(b, a),
    decreases a.len() - k,
{
    if k == a.len() {
        if k == b.len() {
            assert(a =~= b);
        } else {
            assert(shape_lt_at(a, b, k));
        }
    } else if k == b.len() {
        assert(shape_lt_at(b, a, k));
    } else if a[k] == b[k] {
        lemma_shape_total_from(a, b, k + 1);
    } else if point_le(a[k], b[k]) {
        assert(shape_lt_at(a, b, k));
    } else {
        assert(shape_lt_at(b, a, k));
    }
}

/// The least shape of a list is a shape of the list, and no shape of the
/// list is smaller.
pub proof fn lemma_least_of(list: Seq<Seq<Point>>)
    requires
        list.len() > 0,
    ensures
        exists|i: int| 0 <= i < list.len() && list[i] == least_of(list),
        forall|i: int| 0 <= i < list.len() ==> shape_le(least_of(list), #[trigger] list[i]),
    decreases list.len(),
{
    if list.len() <= 1 {
        assert(list[0] == least_of(list));
    } else {
        let front = list.drop_last();
        let n = list.len() - 1;
        lemma_least_of(front);
        let m = least_of(front);
        let j = choose|j: int| 0 <= j < front.len() && front[j] == m;
        assert(list[j] == m);
        if shape_lt(list.last(), m) {
            assert(list[n] == least_of(list));
            assert forall|i: int| 0 <= i < list.len() implies shape_le(
                least_of(list),
                #[trigger] list[i],
            ) by {
                if i < n {
                    assert(front[i] == list[i]);
                    assert(shape_le(m, front[i]));
                    if m != list[i] {
                        lemma_shape_lt_transitive(list.last(), m, list[i]);
                    }
                }
            }
        } else {
            lemma_shape_total_from(list.last(), m, 0);
            assert forall|i: int| 0 <= i < list.len() implies shape_le(
                least_of(list),
                #[trigger] list[i],
            ) by {
                if i < n {
                    assert(front[i] == list[i]);
                    assert(shape_le(m, front[i]));
                }
            }
        }
    }
}

/// The invariant of a shape is one of its images, and no image of the
/// shape is smaller.
pub proof fn lemma_invariant_least(s: Seq<Point>, e: Sym)
    ensures
        shape_le(invariant_of(s), image(s, e)),
        exists|f: Sym| invariant_of(s) == image(s, f),
{
    let list = images(s);
    lemma_least_of(list);
    let i = lemma_sym_all(e);
    assert(list[i] == image(s, e));
    let j = choose|j: int| 0 <= j < list.len() && list[j] == least_of(list);
    assert(list[j] == image(s, sym(j)));
}

/// The image of a shape under a symmetry has the invariant of the shape.
pub proof fn lemma_invariant_of_image(s: Seq<Point>, a: Sym)
    requires
        s.len() > 0,
    ensures
        invariant_of(image(s, a)) == invariant_of(s),
{
    let t = image(s, a);
    lemma_image_of_image(s, a, identity());
    lemma_invariant_least(s, identity());
    lemma_invariant_least(t, identity());
    let f = choose|f: Sym| invariant_of(t) == image(t, f);
    lemma_image_of_image(s, a, f);
    lemma_invariant_least(s, then(a, f));
    let g = choose|g: Sym| invariant_of(s) == image(s, g);
    let h = then(inverse(a), g);
    assert(then(a, h) == g);
    lemma_image_of_image(s, a, h);
    lemma_invariant_least(t, h);
    if invariant_of(t) != invariant_of(s) {
        lemma_shape_lt_asymmetric(invariant_of(t), invariant_of(s));
    }
}

/// The invariant of a shape does not change when the shape is turned by a
/// quarter, mirrored or put into normal form.
pub proof fn lemma_invariant_of_turned(s: Seq<Point>)
    requires
        s.len() > 0,
    ensures
        invariant_of(turned(s)) == invariant_of(s),
        invariant_of(mirrored(s)) == invariant_of(s),
        invariant_of(normalized(s)) == invariant_of(s),
{
    lemma_invariant_of_image(s, quarter());
    lemma_invariant_of_image(s, mirror());
    lemma_invariant_of_image(s, identity());
    lemma_normalize_twice(s);
}

/// Two shapes of which one is an image of the other have the same
/// invariant; two shapes with the same invariant are images of each other,
/// up to the normal form.
pub proof fn lemma_congruent(s: Seq<Point>, t: Seq<Point>)
    requires
        s.len() > 0,
        t.len() > 0,
    ensures
        (exists|e: Sym| normalized(t) == image(s, e)) <==> invariant_of(s) == invariant_of(t),
{
    if exists|e: Sym| normalized(t) == image(s, e) {
        let e = choose|e: Sym| normalized(t) == image(s, e);
        lemma_invariant_of_image(s, e);
        lemma_invariant_of_turned(t);
    }
    if invariant_of(s) == invariant_of(t) {
        lemma_invariant_least(s, identity());
        lemma_invariant_least(t, identity());
        let f = choose|f: Sym| invariant_of(s) == image(s, f);
        let g = choose|g: Sym| invariant_of(t) == image(t, g);
        lemma_image_of_image(t, g, inverse(g));
        lemma_image_of_image(s, f, inverse(g));
        lemma_normalize_twice(t);
        assert(then(g, inverse(g)) == identity());
        assert(normalized(t) == image(s, then(f, inverse(g))));
    }
}

/// Two shapes with the same points, each as often, have the same
/// invariant: the order in which the points are listed does not count.
pub proof fn lemma_invariant_same_points(a: Seq<Point>, b: Seq<Point>)
    requires
        a.len() > 0,
        a.to_multiset() == b.to_multiset(),
    ensures
        invariant_of(a) == invariant_of(b),
{
    assert forall|i: int| 0 <= i < 8 implies #[trigger] images(a)[i] == images(b)[i] by {
        lemma_same_points(a, b, (0, 0), sym(i));
        lemma_normalized_same_points(mapped(a, sym(i)), mapped(b, sym(i)));
    }
    assert(images(a) =~= images(b));
}

/// A list of points with machine coordinates, as a shape.
pub open spec fn points_of(v: Seq<(i32, i32)>) -> Seq<Point> {
    Seq::new(v.len(), |i: int| (v[i].0 as int, v[i].1 as int))
}

/// The rows of a shape lie within what an `i32` can tell apart, and so do
/// its columns.
pub open spec fn spans_fit(s: Seq<Point>) -> bool {
    forall|i: int, j: int|
        0 <= i < s.len() && 0 <= j < s.len() ==> (#[trigger] s[i]).0 - (#[trigger] s[j]).0
            <= i32::MAX && s[i].1 - s[j].1 <= i32::MAX
}

/// The shape can be turned and mirrored: its spans fit, and no row is the
/// least `i32`, which cannot be negated.
pub open spec fn shape_fits(s: Seq<Point>) -> bool {
    &&& spans_fit(s)
    &&& forall|i: int| 0 <= i < s.len() ==> (#[trigger] s[i]).0 > i32::MIN
}

/// Whether the rows of a shape lie within what an `i32` can tell apart, and
/// its columns; and whether, besides, no row is the least `i32`.
pub fn check_shape(shape: &[(i32, i32)]) -> (r: (bool, bool))
    ensures
        r.0 == spans_fit(points_of(shape@)),
        r.1 == shape_fits(points_of(shape@)),
{
    let ghost s = points_of(shape@);
    if shape.len() == 0 {
        return (true, true);
    }
    let mut min0: i64 = shape[0].0 as i64;
    let mut max0: i64 = shape[0].0 as i64;
    let mut min1: i64 = shape[0].1 as i64;
    let mut max1: i64 = shape[0].1 as i64;
    let ghost mut at: (int, int, int, int) = (0, 0, 0, 0);
    for i in 1..shape.len()
        invariant
            s == points_of(shape@),
            0 <= at.0 < i && s[at.0].0 == min0,
            0 <= at.1 < i && s[at.1].0 == max0,
            0 <= at.2 < i && s[at.2].1 == min1,
            0 <= at.3 < i && s[at.3].1 == max1,
            forall|k: int|
                0 <= k < i ==> min0 <= (#[trigger] s[k]).0 <= max0 && min1 <= s[k].1 <= max1,
    {
        let p = shape[i];
        assert(s[i as int] == (p.0 as int, p.1 as int));
        if (p.0 as i64) < min0 {
            min0 = p.0 as i64;
            proof {
                at = (i as int, at.1, at.2, at.3);
            }
        }
        if (p.0 as i64) > max0 {
            max0 = p.0 as i64;
            proof {
                at = (at.0, i as int, at.2, at.3);
            }
        }
        if (p.1 as i64) < min1 {
            min1 = p.1 as i64;
            proof {
                at = (at.0, at.1, i as int, at.3);
            }
        }
        if (p.1 as i64) > max1 {
            max1 = p.1 as i64;
            proof {
                at = (at.0, at.1, at.2, i as int);
            }
        }
    }
    let spans = max0 - min0 <= 2147483647 && max1 - min1 <= 2147483647;
    proof {
        if spans {
            assert forall|i: int, j: int| 0 <= i < s.len() && 0 <= j < s.len() implies (
            #[trigger] s[i]).0 - (#[trigger] s[j]).0 <= i32::MAX && s[i].1 - s[j].1 <= i32::MAX by {
                assert(min0 <= s[i].0 <= max0 && min0 <= s[j].0 <= max0);
                assert(min1 <= s[i].1 <= max1 && min1 <= s[j].1 <= max1);
            }
        } else {
            assert(!(s[at.1].0 - s[at.0].0 <= i32::MAX && s[at.3].1 - s[at.2].1 <= i32::MAX));
        }
        if min0 == -2147483648 {
            assert(!(s[at.0].0 > i32::MIN));
        } else {
            assert forall|i: int| 0 <= i < s.len() implies (#[trigger] s[i]).0 > i32::MIN by {
                assert(min0 <= s[i].0);
            }
        }
    }
    (spans, spans && min0 != -2147483648)
}

/// Whether the point `a` comes before the point `b`, or is the same.
fn point_before(a: (i32, i32), b: (i32, i32)) -> (r: bool)
    ensures
        r == point_le((a.0 as int, a.1 as int), (b.0 as int, b.1 as int)),
{
    a.0 < b.0 || (a.0 == b.0 && a.1 <= b.1)
}

/// The points of a list, sorted.
fn sort_points(shape: &[(i32, i32)]) -> (r: Vec<(i32, i32)>)
    ensures
        points_of(r@) == points_of(shape@).sort_by(point_order()),
        r@.len() == shape@.len(),
{
    let ghost order = point_order();
    let mut out: Vec<(i32, i32)> = Vec::new();
    proof {
        lemma_point_order_total();
        assert(points_of(out@) =~= Seq::<Point>::empty());
        assert(points_of(shape@.take(0)) =~= Seq::<Point>::empty());
    }
    for n in 0..shape.len()
        invariant
            order == point_order(),
            total_ordering(order),
            out@.len() == n,
            sorted_by(points_of(out@), order),
            points_of(out@).to_multiset() == points_of(shape@.take(n as int)).to_multiset(),
    {
        let t = shape[n];
        let ghost key = (t.0 as int, t.1 as int);
        let ghost before = points_of(out@);
        let mut i: usize = 0;
        while i < out.len() && point_before(out[i], t)
            invariant
                i <= out@.len(),
                before == points_of(out@),
                key == (t.0 as int, t.1 as int),
                forall|k: int| 0 <= k < i ==> point_le(#[trigger] before[k], key),
            decreases out@.len() - i,
        {
            i += 1;
        }
        out.insert(i, t);
        proof {
            let after = points_of(out@);
            assert(after =~= before.insert(i as int, key));
            assert(sorted_by(after, order)) by {
                assert forall|a: int, b: int| 0 <= a < b < after.len() implies #[trigger] order(
                    after[a],
                    after[b],
                ) by {
                    if b < i {
                        assert(order(before[a], before[b]));
                    } else if b == i {
                        assert(point_le(before[a], key));
                    } else if a == i {
                        assert(!point_le(before[i as int], key));
                        if b - 1 > i {
                            assert(order(before[i as int], before[b - 1]));
                        }
                    } else if a < i {
                        assert(order(before[a], before[b - 1]));
                    } else {
                        assert(order(before[a - 1], before[b - 1]));
                    }
                }
            }
            assert(points_of(shape@.take(n + 1)) =~= points_of(shape@.take(n as int)).push(key));
            to_multiset_insert(before, i as int, key);
            to_multiset_build(points_of(shape@.take(n as int)), key);
        }
    }
    proof {
        assert(shape@.take(shape@.len() as int) =~= shape@);
        lemma_sort_unique(points_of(shape@), points_of(out@));
    }
    out
}

/// The spans of a shape are kept by sorting, by shifts and by symmetries.
pub proof fn lemma_spans_kept(s: Seq<Point>, e: Sym)
    requires
        s.len() > 0,
        spans_fit(s),
    ensures
        spans_fit(s.sort_by(point_order())),
        spans_fit(normalized(s)),
        spans_fit(mapped(s, e)),
        shape_fits(normalized(s)),
        forall|i: int|
            0 <= i < s.len() ==> 0 <= (#[trigger] normalized(s)[i]).0 <= i32::MAX && 0
                <= normalized(s)[i].1 <= i32::MAX,
{
    lemma_sorted(s);
    lemma_least(s);
    let t = s.sort_by(point_order());
    let a0 = choose|i: int| 0 <= i < s.len() && s[i].0 == least0(s);
    let a1 = choose|i: int| 0 <= i < s.len() && s[i].1 == least1(s);
    assert forall|i: int| 0 <= i < t.len() implies s.contains(#[trigger] t[i]) by {
        assert(t.contains(t[i]));
    }
    assert forall|i: int, j: int| 0 <= i < t.len() && 0 <= j < t.len() implies (#[trigger] t[i]).0
        - (#[trigger] t[j]).0 <= i32::MAX && t[i].1 - t[j].1 <= i32::MAX by {
        assert(s.contains(t[i]) && s.contains(t[j]));
        let a = choose|a: int| 0 <= a < s.len() && s[a] == t[i];
        let b = choose|b: int| 0 <= b < s.len() && s[b] == t[j];
        assert(s[a].0 - s[b].0 <= i32::MAX);
    }
    let n = normalized(s);
    assert forall|i: int| 0 <= i < s.len() implies 0 <= (#[trigger] n[i]).0 <= i32::MAX && 0
        <= n[i].1 <= i32::MAX by {
        assert(s.contains(t[i]));
        let a = choose|a: int| 0 <= a < s.len() && s[a] == t[i];
        assert(s[a].0 - s[a0].0 <= i32::MAX);
        assert(s[a].1 - s[a1].1 <= i32::MAX);
    }
    assert forall|i: int, j: int| 0 <= i < n.len() && 0 <= j < n.len() implies (#[trigger] n[i]).0
        - (#[trigger] n[j]).0 <= i32::MAX && n[i].1 - n[j].1 <= i32::MAX by {
        assert(0 <= n[i].0 <= i32::MAX && 0 <= n[j].0);
    }
    let m = mapped(s, e);
    assert forall|i: int, j: int| 0 <= i < m.len() && 0 <= j < m.len() implies (#[trigger] m[i]).0
        - (#[trigger] m[j]).0 <= i32::MAX && m[i].1 - m[j].1 <= i32::MAX by {
        assert(s[i].0 - s[j].0 <= i32::MAX && s[j].0 - s[i].0 <= i32::MAX);
        assert(s[i].1 - s[j].1 <= i32::MAX && s[j].1 - s[i].1 <= i32::MAX);
    }
}

/// Puts a shape into its normal form: the points sorted, and shifted so
/// that the least row and the least column are 0.
pub fn normalize_shape(shape: &[(i32, i32)]) -> (r: Vec<(i32, i32)>)
    requires
        shape@.len() > 0,
        spans_fit(points_of(shape@)),
    ensures
        points_of(r@) == normalized(points_of(shape@)),
        r@.len() == shape@.len(),
        shape_fits(points_of(r@)),
{
    let ghost s = points_of(shape@);
    let sorted = sort_points(shape);
    let ghost t = points_of(sorted@);
    proof {
        lemma_sorted(s);
        lemma_spans_kept(s, identity());
    }
    let n = sorted.len();
    let mut min_x = sorted[0].0;
    let mut min_y = sorted[0].1;
    let ghost mut at_x: int = 0;
    let ghost mut at_y: int = 0;
    for i in 1..n
        invariant
            n == sorted@.len(),
            n > 0,
            t == points_of(sorted@),
            0 <= at_x < n && t[at_x].0 == min_x,
            0 <= at_y < n && t[at_y].1 == min_y,
            forall|k: int| 0 <= k < i ==> min_x <= (#[trigger] t[k]).0 && min_y <= t[k].1,
    {
        if sorted[i].0 < min_x {
            min_x = sorted[i].0;
            proof {
                at_x = i as int;
            }
        }
        if sorted[i].1 < min_y {
            min_y = sorted[i].1;
            proof {
                at_y = i as int;
            }
        }
    }
    proof {
        lemma_least_unique(t, min_x as int, min_y as int);
        lemma_normalized_same_points(t, s);
    }
    let mut out: Vec<(i32, i32)> = Vec::new();
    for i in 0..n
        invariant
            n == sorted@.len(),
            t == points_of(sorted@),
            spans_fit(t),
            0 <= at_x < n && t[at_x].0 == min_x,
            0 <= at_y < n && t[at_y].1 == min_y,
            forall|k: int| 0 <= k < n ==> min_x <= (#[trigger] t[k]).0 && min_y <= t[k].1,
            out@.len() == i,
            forall|k: int|
                0 <= k < i ==> (#[trigger] out@[k]).0 == t[k].0 - min_x && out@[k].1 == t[k].1
                    - min_y,
    {
        let p = sorted[i];
        assert(t[i as int] == (p.0 as int, p.1 as int));
        assert(t[i as int].0 - t[at_x].0 <= i32::MAX);
        assert(t[i as int].1 - t[at_y].1 <= i32::MAX);
        out.push((p.0 - min_x, p.1 - min_y));
    }
    proof {
        assert(points_of(out@) =~= shifted(t, (min_x as int, min_y as int)));
    }
    out
}

/// Turns a shape by a quarter, `(x, y)` to `(y, -x)`, and puts it into its
/// normal form.
pub fn rotate_shape(shape: &[(i32, i32)]) -> (r: Vec<(i32, i32)>)
    requires
        shape@.len() > 0,
        shape_fits(points_of(shape@)),
    ensures
        points_of(r@) == turned(points_of(shape@)),
        r@.len() == shape@.len(),
        shape_fits(points_of(r@)),
{
    let ghost s = points_of(shape@);
    let mut moved: Vec<(i32, i32)> = Vec::new();
    for i in 0..shape.len()
        invariant
            s == points_of(shape@),
            shape_fits(s),
            moved@.len() == i,
            forall|k: int|
                0 <= k < i ==> ((#[trigger] moved@[k]).0 as int, moved@[k].1 as int) == act(
                    quarter(),
                    s[k],
                ),
    {
        let p = shape[i];
        assert(s[i as int] == (p.0 as int, p.1 as int));
        moved.push((p.1, -p.0));
    }
    proof {
        assert(points_of(moved@) =~= mapped(s, quarter()));
        lemma_spans_kept(s, quarter());
    }
    normalize_shape(moved.as_slice())
}

/// Mirrors a shape, `(x, y)` to `(-x, y)`, and puts it into its normal
/// form.
pub fn flip_shape(shape: &[(i32, i32)]) -> (r: Vec<(i32, i32)>)
    requires
        shape@.len() > 0,
        shape_fits(points_of(shape@)),
    ensures
        points_of(r@) == mirrored(points_of(shape@)),
        r@.len() == shape@.len(),
        shape_fits(points_of(r@)),
{
    let ghost s = points_of(shape@);
    let mut moved: Vec<(i32, i32)> = Vec::new();
    for i in 0..shape.len()
        invariant
            s == points_of(shape@),
            shape_fits(s),
            moved@.len() == i,
            forall|k: int|
                0 <= k < i ==> ((#[trigger] moved@[k]).0 as int, moved@[k].1 as int) == act(
                    mirror(),
                    s[k],
                ),
    {
        let p = shape[i];
        assert(s[i as int] == (p.0 as int, p.1 as int));
        moved.push((-p.0, p.1));
    }
    proof {
        assert(points_of(moved@) =~= mapped(s, mirror()));
        lemma_spans_kept(s, mirror());
    }
    normalize_shape(moved.as_slice())
}

/// Whether the shape `a` is smaller than the shape `b`.
pub fn shape_before(a: &Vec<(i32, i32)>, b: &Vec<(i32, i32)>) -> (r: bool)
    ensures
        r == shape_lt(points_of(a@), points_of(b@)),
{
    let ghost pa = points_of(a@);
    let ghost pb = points_of(b@);
    let mut i: usize = 0;
    while i < a.len() && i < b.len()
        invariant
            pa == points_of(a@),
            pb == points_of(b@),
            i <= a@.len(),
            i <= b@.len(),
            forall|k: int| 0 <= k < i ==> pa[k] == pb[k],
        decreases a@.len() - i,
    {
        let p = a[i];
        let q = b[i];
        if p.0 != q.0 || p.1 != q.1 {
            assert(pa[i as int] != pb[i as int]);
            if point_before(p, q) {
                proof {
                    assert(shape_lt_at(pa, pb, i as int));
                }
                return true;
            } else {
                proof {
                    assert(shape_lt_at(pb, pa, i as int));
                    lemma_shape_lt_asymmetric(pb, pa);
                }
                return false;
            }
        }
        i += 1;
    }
    if i < b.len() {
        proof {
            assert(shape_lt_at(pa, pb, i as int));
        }
        true
    } else {
        proof {
            if i < a.len() {
                assert(shape_lt_at(pb, pa, i as int));
                lemma_shape_lt_asymmetric(pb, pa);
            } else {
                assert(pa =~= pb);
                if shape_lt(pa, pb) {
                    lemma_shape_lt_asymmetric(pa, pb);
                }
            }
        }
        false
    }
}

/// Whether two shapes are the same list of points.
pub fn shape_equal(a: &Vec<(i32, i32)>, b: &Vec<(i32, i32)>) -> (r: bool)
    ensures
        r == (points_of(a@) == points_of(b@)),
{
    if a.len() != b.len() {
        assert(points_of(a@).len() != points_of(b@).len());
        return false;
    }
    for i in 0..a.len()
        invariant
            a@.len() == b@.len(),
            forall|k: int| 0 <= k < i ==> points_of(a@)[k] == points_of(b@)[k],
    {
        if a[i].0 != b[i].0 || a[i].1 != b[i].1 {
            assert(points_of(a@)[i as int] != points_of(b@)[i as int]);
            return false;
        }
    }
    proof {
        assert(points_of(a@) =~= points_of(b@));
    }
    true
}

/// A copy of a shape.
fn copy_shape(a: &Vec<(i32, i32)>) -> (r: Vec<(i32, i32)>)
    ensures
        r@ == a@,
{
    let mut r: Vec<(i32, i32)> = Vec::new();
    for i in 0..a.len()
        invariant
            r@.len() == i,
            forall|k: int| 0 <= k < i ==> r@[k] == a@[k],
    {
        r.push(a[i]);
    }
    proof {
        assert(r@ =~= a@);
    }
    r
}

/// The invariant of a shape: the least of its eight images under the
/// symmetries of the square, each in normal form.
pub fn transform_invariant(shape: &[(i32, i32)]) -> (r: Vec<(i32, i32)>)
    requires
        shape@.len() > 0,
        shape_fits(points_of(shape@)),
    ensures
        points_of(r@) == invariant_of(points_of(shape@)),
        r@.len() == shape@.len(),
{
    let ghost s = points_of(shape@);
    let ghost all = images(s);
    let ghost q = quarter();
    proof {
        lemma_image_of_image(s, q, q);
        lemma_image_of_image(s, then(q, q), q);
        lemma_image_of_image(s, then(then(q, q), q), q);
        lemma_image_of_image(s, q, mirror());
        lemma_image_of_image(s, then(q, q), mirror());
        lemma_image_of_image(s, then(then(q, q), q), mirror());
        lemma_image_of_image(s, identity(), mirror());
        lemma_normalize_twice(s);
        assert(then(then(then(q, q), q), q) == identity());
        assert(then(identity(), mirror()) == mirror());
    }
    let mut cur = rotate_shape(shape);
    let mut best = copy_shape(&cur);
    proof {
        assert(all.take(1) =~= seq![all[0]]);
        assert(points_of(best@) == least_of(all.take(1)));
    }
    let flip = flip_shape(cur.as_slice());
    proof {
        assert(points_of(flip@) == all[1]);
        assert(all.take(2).drop_last() =~= all.take(1));
        assert(all.take(2).last() == all[1]);
    }
    if shape_before(&flip, &best) {
        best = flip;
    }
    assert(points_of(best@) == least_of(all.take(2)));
    for k in 1..4usize
        invariant
            s == points_of(shape@),
            s.len() > 0,
            all == images(s),
            q == quarter(),
            cur@.len() == s.len(),
            best@.len() == s.len(),
            shape_fits(points_of(cur@)),
            points_of(cur@) == all[2 * (k - 1)],
            points_of(best@) == least_of(all.take(2 * k)),
            all[2] == image(all[0], q),
            all[4] == image(all[2], q),
            all[6] == image(all[4], q),
            all[3] == image(all[2], mirror()),
            all[5] == image(all[4], mirror()),
            all[7] == image(all[6], mirror()),
    {
        cur = rotate_shape(cur.as_slice());
        proof {
            assert(points_of(cur@) == all[2 * k as int]);
            assert(all.take(2 * k + 1).drop_last() =~= all.take(2 * k as int));
            assert(all.take(2 * k + 1).last() == all[2 * k as int]);
        }
        if shape_before(&cur, &best) {
            best = copy_shape(&cur);
        }
        assert(points_of(best@) == least_of(all.take(2 * k + 1)));
        let flip = flip_shape(cur.as_slice());
        proof {
            assert(points_of(flip@) == all[2 * k + 1]);
            assert(all.take(2 * k + 2).drop_last() =~= all.take(2 * k + 1));
            assert(all.take(2 * k + 2).last() == all[2 * k + 1]);
        }
        if shape_before(&flip, &best) {
            best = flip;
        }
        assert(points_of(best@) == least_of(all.take(2 * k + 2)));
    }
    proof {
        assert(all.take(8) =~= all);
    }
    best
}

} // verus!
