//! Colour patterns and their eight images under the symmetries of the
//! square: quarter turns and mirror images.

use crate::puzzle::{grid_of, is_grid, Color};
use vstd::prelude::*;

verus! {

/// The pattern turned by 90 degrees clockwise: the entry `(y, x)` of `p`
/// stands at `(x, h - 1 - y)`, where `h` is the height of `p`.
pub open spec fn rotated(p: Seq<Seq<Color>>) -> Seq<Seq<Color>> {
    Seq::new(p[0].len(), |x: int| Seq::new(p.len(), |j: int| p[p.len() - 1 - j][x]))
}

/// The pattern mirrored left to right: the entry `(y, x)` of `p` stands at
/// `(y, w - 1 - x)`, where `w` is the width of `p`.
pub open spec fn flipped(p: Seq<Seq<Color>>) -> Seq<Seq<Color>> {
    Seq::new(p.len(), |y: int| Seq::new(p[y].len(), |j: int| p[y][p[y].len() - 1 - j]))
}

/// `p` has at least one row and one column, and all its rows have the same
/// length.
pub open spec fn is_pattern(p: Seq<Seq<Color>>) -> bool {
    &&& p.len() >= 1
    &&& p[0].len() >= 1
    &&& is_grid(p, p.len() as int, p[0].len() as int)
}

/// The eight images of `p`: each of the four turns, and its mirror image.
pub open spec fn images(p: Seq<Seq<Color>>) -> Seq<Seq<Seq<Color>>> {
    let r1 = rotated(p);
    let r2 = rotated(r1);
    let r3 = rotated(r2);
    seq![p, flipped(p), r1, flipped(r1), r2, flipped(r2), r3, flipped(r3)]
}

/// The order of rows: at the first place where they differ `a` has the
/// smaller colour, or `a` is a proper prefix of `b`.
pub open spec fn row_lt(a: Seq<Color>, b: Seq<Color>) -> bool {
    exists|k: int| row_lt_at(a, b, k)
}

/// The rows agree before the place `k`, where `a` ends or has the smaller
/// colour.
pub open spec fn row_lt_at(a: Seq<Color>, b: Seq<Color>, k: int) -> bool {
    &&& 0 <= k <= a.len()
    &&& k < b.len()
    &&& forall|i: int| 0 <= i < k ==> a[i] == b[i]
    &&& k < a.len() ==> a[k].rank() < b[k].rank()
}

/// The order of patterns: at the first place where they differ `a` has the
/// smaller row, or `a` is a proper prefix of `b`.
pub open spec fn pattern_lt(a: Seq<Seq<Color>>, b: Seq<Seq<Color>>) -> bool {
    exists|k: int| pattern_lt_at(a, b, k)
}

/// The patterns agree before the row `k`, where `a` ends or has the smaller
/// row.
pub open spec fn pattern_lt_at(a: Seq<Seq<Color>>, b: Seq<Seq<Color>>, k: int) -> bool {
    &&& 0 <= k <= a.len()
    &&& k < b.len()
    &&& forall|i: int| 0 <= i < k ==> a[i] == b[i]
    &&& k < a.len() ==> row_lt(a[k], b[k])
}

/// The patterns of a list, each as a grid.
pub open spec fn grids_of(list: Seq<Vec<Vec<Color>>>) -> Seq<Seq<Seq<Color>>> {
    Seq::new(list.len(), |i: int| grid_of(list[i]@))
}

/// Each pattern of the list is smaller than the ones behind it.
pub open spec fn strictly_sorted(list: Seq<Seq<Seq<Color>>>) -> bool {
    forall|i: int, j: int| 0 <= i < j < list.len() ==> pattern_lt(list[i], list[j])
}

/// How two values stand in an order.
#[derive(Debug, Clone, Copy, PartialEq, Eq, Structural)]
pub enum Sign {
    Less,
    Equal,
    Greater,
}

/// Turns a pattern by 90 degrees clockwise.
pub fn rotate_pattern(pattern: &[Vec<Color>]) -> (r: Vec<Vec<Color>>)
    requires
        pattern@.len() >= 1,
        is_grid(grid_of(pattern@), pattern@.len() as int, pattern@[0]@.len() as int),
    ensures
        grid_of(r@) == rotated(grid_of(pattern@)),
{
    let height = pattern.len();
    let width = pattern[0].len();
    let ghost p = grid_of(pattern@);
    let mut r: Vec<Vec<Color>> = Vec::new();
    for x in 0..width
        invariant
            height == pattern@.len(),
            height >= 1,
            width == pattern@[0]@.len(),
            p == grid_of(pattern@),
            is_grid(p, height as int, width as int),
            r@.len() == x,
            forall|i: int| 0 <= i < x ==> (#[trigger] r@[i])@ == rotated(p)[i],
    {
        let mut row: Vec<Color> = Vec::new();
        for j in 0..height
            invariant
                height == pattern@.len(),
                width == pattern@[0]@.len(),
                p == grid_of(pattern@),
                is_grid(p, height as int, width as int),
                x < width,
                row@.len() == j,
                forall|i: int| 0 <= i < j ==> #[trigger] row@[i] == p[height - 1 - i][x as int],
        {
            assert(p[height - 1 - j].len() == width);
            row.push(pattern[height - 1 - j][x]);
        }
        assert(row@ =~= rotated(p)[x as int]);
        r.push(row);
    }
    assert(grid_of(r@) =~= rotated(p));
    r
}

/// Mirrors a pattern left to right.
pub fn flip_pattern(pattern: &[Vec<Color>]) -> (r: Vec<Vec<Color>>)
    requires
        pattern@.len() >= 1,
        is_grid(grid_of(pattern@), pattern@.len() as int, pattern@[0]@.len() as int),
    ensures
        grid_of(r@) == flipped(grid_of(pattern@)),
{
    let height = pattern.len();
    let width = pattern[0].len();
    let ghost p = grid_of(pattern@);
    let mut r: Vec<Vec<Color>> = Vec::new();
    for y in 0..height
        invariant
            height == pattern@.len(),
            width == pattern@[0]@.len(),
            p == grid_of(pattern@),
            is_grid(p, height as int, width as int),
            r@.len() == y,
            forall|i: int| 0 <= i < y ==> (#[trigger] r@[i])@ == flipped(p)[i],
    {
        let mut row: Vec<Color> = Vec::new();
        assert(p[y as int].len() == width);
        for j in 0..width
            invariant
                height == pattern@.len(),
                p == grid_of(pattern@),
                y < height,
                p[y as int].len() == width,
                row@.len() == j,
                forall|i: int| 0 <= i < j ==> #[trigger] row@[i] == p[y as int][width - 1 - i],
        {
            row.push(pattern[y][width - 1 - j]);
        }
        assert(row@ =~= flipped(p)[y as int]);
        r.push(row);
    }
    assert(grid_of(r@) =~= flipped(p));
    r
}

/// Compares two rows in the order of rows.
pub fn compare_rows(a: &Vec<Color>, b: &Vec<Color>) -> (r: Sign)
    ensures
        r == Sign::Less <==> row_lt(a@, b@),
        r == Sign::Equal <==> a@ == b@,
        r == Sign::Greater <==> row_lt(b@, a@),
{
    let mut i: usize = 0;
    while i < a.len() && i < b.len()
        invariant
            i <= a@.len(),
            i <= b@.len(),
            forall|k: int| 0 <= k < i ==> a@[k] == b@[k],
        decreases a@.len() - i,
    {
        let ra = a[i].rank_of();
        let rb = b[i].rank_of();
        if ra < rb {
            proof {
                assert(row_lt_at(a@, b@, i as int));
                lemma_row_lt_asymmetric(a@, b@);
            }
            return Sign::Less;
        }
        if ra > rb {
            proof {
                assert(row_lt_at(b@, a@, i as int));
                lemma_row_lt_asymmetric(b@, a@);
            }
            return Sign::Greater;
        }
        i += 1;
    }
    if i < b.len() {
        proof {
            assert(row_lt_at(a@, b@, i as int));
            lemma_row_lt_asymmetric(a@, b@);
        }
        Sign::Less
    } else if i < a.len() {
        proof {
            assert(row_lt_at(b@, a@, i as int));
            lemma_row_lt_asymmetric(b@, a@);
        }
        Sign::Greater
    } else {
        proof {
            assert(a@ =~= b@);
            if row_lt(a@, b@) {
                lemma_row_lt_asymmetric(a@, b@);
            }
        }
        Sign::Equal
    }
}

/// Compares two patterns in the order of patterns.
pub fn compare_patterns(a: &Vec<Vec<Color>>, b: &Vec<Vec<Color>>) -> (r: Sign)
    ensures
        r == Sign::Less <==> pattern_lt(grid_of(a@), grid_of(b@)),
        r == Sign::Equal <==> grid_of(a@) == grid_of(b@),
        r == Sign::Greater <==> pattern_lt(grid_of(b@), grid_of(a@)),
{
    let ghost ga = grid_of(a@);
    let ghost gb = grid_of(b@);
    let mut i: usize = 0;
    while i < a.len() && i < b.len()
        invariant
            ga == grid_of(a@),
            gb == grid_of(b@),
            i <= a@.len(),
            i <= b@.len(),
            forall|k: int| 0 <= k < i ==> ga[k] == gb[k],
        decreases a@.len() - i,
    {
        let s = compare_rows(&a[i], &b[i]);
        match s {
            Sign::Less => {
                proof {
                    assert(pattern_lt_at(ga, gb, i as int));
                    lemma_pattern_lt_asymmetric(ga, gb);
                }
                return Sign::Less;
            },
            Sign::Greater => {
                proof {
                    assert(pattern_lt_at(gb, ga, i as int));
                    lemma_pattern_lt_asymmetric(gb, ga);
                }
                return Sign::Greater;
            },
            Sign::Equal => {},
        }
        i += 1;
    }
    if i < b.len() {
        proof {
            assert(pattern_lt_at(ga, gb, i as int));
            lemma_pattern_lt_asymmetric(ga, gb);
        }
        Sign::Less
    } else if i < a.len() {
        proof {
            assert(pattern_lt_at(gb, ga, i as int));
            lemma_pattern_lt_asymmetric(gb, ga);
        }
        Sign::Greater
    } else {
        proof {
            assert(ga =~= gb);
            if pattern_lt(ga, gb) {
                lemma_pattern_lt_asymmetric(ga, gb);
            }
        }
        Sign::Equal
    }
}

/// The order of rows is transitive.
pub proof fn lemma_row_lt_transitive(a: Seq<Color>, b: Seq<Color>, c: Seq<Color>)
    requires
        row_lt(a, b),
        row_lt(b, c),
    ensures
        row_lt(a, c),
{
    let k1 = choose|k: int| row_lt_at(a, b, k);
    let k2 = choose|k: int| row_lt_at(b, c, k);
    let k = if k1 <= k2 {
        k1
    } else {
        k2
    };
    assert(row_lt_at(a, c, k));
}

/// No row is smaller than itself, and of two rows at most one is the smaller.
pub proof fn lemma_row_lt_asymmetric(a: Seq<Color>, b: Seq<Color>)
    requires
        row_lt(a, b),
    ensures
        !row_lt(b, a),
        a != b,
{
    let k1 = choose|k: int| row_lt_at(a, b, k);
    if row_lt(b, a) {
        let k2 = choose|k: int| row_lt_at(b, a, k);
        assert(false);
    }
}

/// The order of patterns is transitive.
pub proof fn lemma_pattern_lt_transitive(
    a: Seq<Seq<Color>>,
    b: Seq<Seq<Color>>,
    c: Seq<Seq<Color>>,
)
    requires
        pattern_lt(a, b),
        pattern_lt(b, c),
    ensures
        pattern_lt(a, c),
{
    let k1 = choose|k: int| pattern_lt_at(a, b, k);
    let k2 = choose|k: int| pattern_lt_at(b, c, k);
    let k = if k1 <= k2 {
        k1
    } else {
        k2
    };
    if k1 == k2 && k1 < a.len() {
        lemma_row_lt_transitive(a[k], b[k], c[k]);
    }
    assert(pattern_lt_at(a, c, k));
}

/// No pattern is smaller than itself, and of two patterns at most one is the
/// smaller.
pub proof fn lemma_pattern_lt_asymmetric(a: Seq<Seq<Color>>, b: Seq<Seq<Color>>)
    requires
        pattern_lt(a, b),
    ensures
        !pattern_lt(b, a),
        a != b,
{
    let k1 = choose|k: int| pattern_lt_at(a, b, k);
    if k1 < a.len() {
        lemma_row_lt_asymmetric(a[k1], b[k1]);
    }
    if pattern_lt(b, a) {
        let k2 = choose|k: int| pattern_lt_at(b, a, k);
        if k2 < b.len() {
            lemma_row_lt_asymmetric(b[k2], a[k2]);
        }
        assert(false);
    }
}

/// Puts a pattern into a sorted list at its place, unless the list holds it
/// already.
fn insert_pattern(list: &mut Vec<Vec<Vec<Color>>>, p: Vec<Vec<Color>>)
    requires
        strictly_sorted(grids_of(old(list)@)),
    ensures
        strictly_sorted(grids_of(final(list)@)),
        final(list)@.len() <= old(list)@.len() + 1,
        forall|q: Seq<Seq<Color>>|
            grids_of(final(list)@).contains(q) <==> (grids_of(old(list)@).contains(q) || q
                == grid_of(p@)),
{
    let ghost before = grids_of(list@);
    let ghost g = grid_of(p@);
    let mut i: usize = 0;
    let mut found = false;
    while !found && i < list.len()
        invariant
            i <= list@.len(),
            *list == *old(list),
            before == grids_of(list@),
            strictly_sorted(before),
            g == grid_of(p@),
            forall|k: int| 0 <= k < i ==> pattern_lt(#[trigger] before[k], g),
            found ==> i < list@.len() && pattern_lt(g, before[i as int]),
        decreases list@.len() - i + if found { 0int } else { 1int },
    {
        match compare_patterns(&list[i], &p) {
            Sign::Less => {
                i += 1;
            },
            Sign::Equal => {
                assert(before[i as int] == g);
                assert(before.contains(g));
                return ;
            },
            Sign::Greater => {
                found = true;
            },
        }
    }
    list.insert(i, p);
    proof {
        let after = grids_of(list@);
        assert(after =~= before.insert(i as int, g));
        assert(after[i as int] == g);
        assert forall|a: int, b: int| 0 <= a < b < after.len() implies pattern_lt(
            after[a],
            after[b],
        ) by {
            if b < i {
                assert(after[a] == before[a] && after[b] == before[b]);
            } else if b == i {
                assert(after[a] == before[a]);
            } else if a == i {
                assert(after[b] == before[b - 1]);
                assert(pattern_lt(g, before[i as int]));
                if b - 1 > i {
                    lemma_pattern_lt_transitive(g, before[i as int], before[b - 1]);
                }
            } else if a < i {
                assert(after[a] == before[a] && after[b] == before[b - 1]);
            } else {
                assert(after[a] == before[a - 1] && after[b] == before[b - 1]);
            }
        }
        assert forall|q: Seq<Seq<Color>>| after.contains(q) <==> (before.contains(q) || q
            == g) by {
            if after.contains(q) {
                let k = choose|k: int| 0 <= k < after.len() && after[k] == q;
                if k < i {
                    assert(before[k] == q);
                } else if k > i {
                    assert(before[k - 1] == q);
                }
            }
            if before.contains(q) {
                let k = choose|k: int| 0 <= k < before.len() && before[k] == q;
                if k < i {
                    assert(after[k] == q);
                } else {
                    assert(after[k + 1] == q);
                }
            }
        }
    }
}

/// Four quarter turns bring a pattern back.
pub proof fn lemma_rotate_four_times(p: Seq<Seq<Color>>)
    requires
        is_pattern(p),
    ensures
        is_pattern(rotated(p)),
        rotated(p).len() == p[0].len(),
        rotated(p)[0].len() == p.len(),
        rotated(rotated(rotated(rotated(p)))) == p,
{
    let r1 = rotated(p);
    let r2 = rotated(r1);
    let r3 = rotated(r2);
    let r4 = rotated(r3);
    assert(is_pattern(r1));
    assert(is_pattern(r2));
    assert(is_pattern(r3));
    assert(r4.len() == p.len());
    assert forall|y: int| 0 <= y < p.len() implies #[trigger] r4[y] =~= p[y] by {
        assert(r4[y].len() == p[y].len());
        assert forall|x: int| 0 <= x < p[y].len() implies r4[y][x] == p[y][x] by {
            lemma_rotated_entry(r3, y, x);
            lemma_rotated_entry(r2, x, p.len() - 1 - y);
            lemma_rotated_entry(r1, p.len() - 1 - y, p[0].len() - 1 - x);
            lemma_rotated_entry(p, p[0].len() - 1 - x, y);
        }
    }
    assert(r4 =~= p);
}

/// Where an entry of a turned pattern comes from.
pub proof fn lemma_rotated_entry(p: Seq<Seq<Color>>, y: int, x: int)
    requires
        is_pattern(p),
        0 <= y < p[0].len(),
        0 <= x < p.len(),
    ensures
        is_pattern(rotated(p)),
        rotated(p).len() == p[0].len(),
        rotated(p)[0].len() == p.len(),
        rotated(p)[y].len() == p.len(),
        rotated(p)[y][x] == p[p.len() - 1 - x][y],
{
}

/// Where an entry of a mirrored pattern comes from.
pub proof fn lemma_flipped_entry(p: Seq<Seq<Color>>, y: int, x: int)
    requires
        is_pattern(p),
        0 <= y < p.len(),
        0 <= x < p[0].len(),
    ensures
        is_pattern(flipped(p)),
        flipped(p).len() == p.len(),
        flipped(p)[0].len() == p[0].len(),
        flipped(p)[y].len() == p[0].len(),
        flipped(p)[y][x] == p[y][p[0].len() - 1 - x],
{
}

/// Mirroring twice brings a pattern back.
pub proof fn lemma_flip_twice(p: Seq<Seq<Color>>)
    requires
        is_pattern(p),
    ensures
        is_pattern(flipped(p)),
        flipped(flipped(p)) == p,
{
    let f1 = flipped(p);
    let f2 = flipped(f1);
    assert(is_pattern(f1));
    assert forall|y: int| 0 <= y < p.len() implies #[trigger] f2[y] =~= p[y] by {
        assert forall|x: int| 0 <= x < p[y].len() implies f2[y][x] == p[y][x] by {
            lemma_flipped_entry(f1, y, x);
            lemma_flipped_entry(p, y, p[0].len() - 1 - x);
        }
    }
    assert(f2 =~= p);
}

/// A quarter turn of a mirror image is the mirror image of three quarter
/// turns.
pub proof fn lemma_rotate_flip(p: Seq<Seq<Color>>)
    requires
        is_pattern(p),
    ensures
        rotated(flipped(p)) == flipped(rotated(rotated(rotated(p)))),
{
    let f = flipped(p);
    let lhs = rotated(f);
    let r1 = rotated(p);
    let r2 = rotated(r1);
    let r3 = rotated(r2);
    let rhs = flipped(r3);
    lemma_flipped_entry(p, 0, 0);
    lemma_rotated_entry(p, 0, 0);
    lemma_rotated_entry(r1, 0, 0);
    lemma_rotated_entry(r2, 0, 0);
    lemma_flipped_entry(r3, 0, 0);
    lemma_rotated_entry(f, 0, 0);
    let h = p.len() as int;
    let w = p[0].len() as int;
    assert(lhs.len() == w && rhs.len() == w);
    assert forall|y: int| 0 <= y < w implies #[trigger] lhs[y] =~= rhs[y] by {
        lemma_rotated_entry(f, y, 0);
        lemma_flipped_entry(r3, y, 0);
        assert forall|x: int| 0 <= x < h implies lhs[y][x] == rhs[y][x] by {
            lemma_rotated_entry(f, y, x);
            lemma_flipped_entry(p, h - 1 - x, y);
            lemma_flipped_entry(r3, y, x);
            lemma_rotated_entry(r2, y, h - 1 - x);
            lemma_rotated_entry(r1, x, w - 1 - y);
            lemma_rotated_entry(p, w - 1 - y, h - 1 - x);
        }
    }
    assert(lhs =~= rhs);
}

/// The images of a pattern are closed under quarter turns and mirroring.
pub proof fn lemma_images_closed(p: Seq<Seq<Color>>, q: Seq<Seq<Color>>)
    requires
        is_pattern(p),
        images(p).contains(q),
    ensures
        is_pattern(q),
        images(p).contains(rotated(q)),
        images(p).contains(flipped(q)),
{
    let r1 = rotated(p);
    let r2 = rotated(r1);
    let r3 = rotated(r2);
    let im = images(p);
    lemma_rotate_four_times(p);
    lemma_rotate_four_times(r1);
    lemma_rotate_four_times(r2);
    lemma_rotate_four_times(r3);
    lemma_flip_twice(p);
    lemma_flip_twice(r1);
    lemma_flip_twice(r2);
    lemma_flip_twice(r3);
    lemma_rotate_flip(p);
    lemma_rotate_flip(r1);
    lemma_rotate_flip(r2);
    lemma_rotate_flip(r3);
    assert(im[0] == p && im[1] == flipped(p) && im[2] == r1 && im[3] == flipped(r1) && im[4] == r2
        && im[5] == flipped(r2) && im[6] == r3 && im[7] == flipped(r3));
    let k = choose|k: int| 0 <= k < im.len() && im[k] == q;
    if k == 0 {
        assert(im[2] == rotated(q) && im[1] == flipped(q));
    } else if k == 1 {
        assert(im[7] == rotated(q) && im[0] == flipped(q));
    } else if k == 2 {
        assert(im[4] == rotated(q) && im[3] == flipped(q));
    } else if k == 3 {
        assert(im[1] == rotated(q) && im[2] == flipped(q));
    } else if k == 4 {
        assert(im[6] == rotated(q) && im[5] == flipped(q));
    } else if k == 5 {
        assert(im[3] == rotated(q) && im[4] == flipped(q));
    } else if k == 6 {
        assert(im[0] == rotated(q) && im[7] == flipped(q));
    } else {
        assert(im[5] == rotated(q) && im[6] == flipped(q));
    }
}

/// A list that holds the images of a pattern and nothing else holds, with
/// each of its patterns, the quarter turn and the mirror image of it.
pub proof fn lemma_image_list_closed(
    p: Seq<Seq<Color>>,
    list: Seq<Seq<Seq<Color>>>,
    q: Seq<Seq<Color>>,
)
    requires
        is_pattern(p),
        forall|t: Seq<Seq<Color>>| list.contains(t) <==> images(p).contains(t),
        list.contains(q),
    ensures
        list.contains(rotated(q)),
        list.contains(flipped(q)),
{
    lemma_images_closed(p, q);
}

/// The eight images of a pattern, in the order of `images`.
fn image_list(pattern: &[Vec<Color>]) -> (r: Vec<Vec<Vec<Color>>>)
    requires
        is_pattern(grid_of(pattern@)),
    ensures
        grids_of(r@) == images(grid_of(pattern@)),
{
    let ghost p = grid_of(pattern@);
    proof {
        lemma_rotate_four_times(p);
        lemma_rotate_four_times(rotated(p));
        lemma_rotate_four_times(rotated(rotated(p)));
        lemma_rotate_four_times(rotated(rotated(rotated(p))));
    }
    let r1 = rotate_pattern(pattern);
    let r2 = rotate_pattern(r1.as_slice());
    let r3 = rotate_pattern(r2.as_slice());
    let r0 = rotate_pattern(r3.as_slice());
    let f0 = flip_pattern(r0.as_slice());
    let f1 = flip_pattern(r1.as_slice());
    let f2 = flip_pattern(r2.as_slice());
    let f3 = flip_pattern(r3.as_slice());
    let mut list: Vec<Vec<Vec<Color>>> = Vec::new();
    list.push(r0);
    list.push(f0);
    list.push(r1);
    list.push(f1);
    list.push(r2);
    list.push(f2);
    list.push(r3);
    list.push(f3);
    proof {
        assert(grids_of(list@) =~= images(p));
    }
    list
}

/// Sorts a list of patterns and keeps each pattern once.
pub fn sort_patterns(list: Vec<Vec<Vec<Color>>>) -> (r: Vec<Vec<Vec<Color>>>)
    ensures
        strictly_sorted(grids_of(r@)),
        r@.len() <= list@.len(),
        forall|q: Seq<Seq<Color>>| grids_of(r@).contains(q) <==> grids_of(list@).contains(q),
{
    let ghost all = grids_of(list@);
    let mut rest = list;
    let mut out: Vec<Vec<Vec<Color>>> = Vec::new();
    while rest.len() > 0
        invariant
            strictly_sorted(grids_of(out@)),
            out@.len() + rest@.len() <= list@.len(),
            all == grids_of(list@),
            forall|q: Seq<Seq<Color>>|
                (grids_of(out@).contains(q) || grids_of(rest@).contains(q)) <==> all.contains(q),
        decreases rest@.len(),
    {
        let ghost rest_before = grids_of(rest@);
        let ghost out_before = grids_of(out@);
        let p = rest.pop().unwrap();
        let ghost g = grid_of(p@);
        proof {
            assert(grids_of(rest@) =~= rest_before.drop_last());
            assert(rest_before.last() == g);
        }
        insert_pattern(&mut out, p);
        proof {
            let rest_after = grids_of(rest@);
            let out_after = grids_of(out@);
            assert forall|q: Seq<Seq<Color>>|
                (out_after.contains(q) || rest_after.contains(q)) <==> all.contains(q) by {
                if rest_after.contains(q) {
                    let k = choose|k: int| 0 <= k < rest_after.len() && rest_after[k] == q;
                    assert(rest_before[k] == q);
                }
                if rest_before.contains(q) {
                    let k = choose|k: int| 0 <= k < rest_before.len() && rest_before[k] == q;
                    if k < rest_after.len() {
                        assert(rest_after[k] == q);
                    }
                }
                assert(rest_before.contains(g));
            }
        }
    }
    proof {
        assert forall|q: Seq<Seq<Color>>| grids_of(out@).contains(q) <==> all.contains(q) by {
            assert(!grids_of(rest@).contains(q));
        }
    }
    out
}

/// `list` holds the images of `p`, sorted, each of them once.
pub open spec fn is_enumeration(list: Seq<Seq<Seq<Color>>>, p: Seq<Seq<Color>>) -> bool {
    &&& strictly_sorted(list)
    &&& forall|q: Seq<Seq<Color>>| list.contains(q) <==> images(p).contains(q)
}

/// The images of `p`, sorted, each of them once.
pub open spec fn enumeration(p: Seq<Seq<Color>>) -> Seq<Seq<Seq<Color>>> {
    choose|list: Seq<Seq<Seq<Color>>>| is_enumeration(list, p)
}

/// Two sorted lists without repetition that hold the same patterns are the
/// same list.
pub proof fn lemma_sorted_lists_equal(a: Seq<Seq<Seq<Color>>>, b: Seq<Seq<Seq<Color>>>)
    requires
        strictly_sorted(a),
        strictly_sorted(b),
        forall|q: Seq<Seq<Color>>| a.contains(q) <==> b.contains(q),
    ensures
        a == b,
    decreases a.len(),
{
    if a.len() == 0 {
        if b.len() > 0 {
            assert(b.contains(b[0]));
        }
        assert(a =~= b);
    } else if b.len() == 0 {
        assert(a.contains(a[0]));
    } else {
        let la = a.last();
        let lb = b.last();
        assert(a.contains(la));
        assert(b.contains(lb));
        let j = choose|j: int| 0 <= j < b.len() && b[j] == la;
        let i = choose|i: int| 0 <= i < a.len() && a[i] == lb;
        if j < b.len() - 1 {
            assert(pattern_lt(la, lb));
            lemma_pattern_lt_asymmetric(la, lb);
            if i < a.len() - 1 {
                assert(pattern_lt(lb, la));
            }
            assert(false);
        }
        assert(la == lb);
        let a1 = a.drop_last();
        let b1 = b.drop_last();
        assert forall|q: Seq<Seq<Color>>| a1.contains(q) <==> b1.contains(q) by {
            if a1.contains(q) {
                let k = choose|k: int| 0 <= k < a1.len() && a1[k] == q;
                assert(a[k] == q);
                assert(pattern_lt(a[k], la));
                lemma_pattern_lt_asymmetric(q, la);
                assert(a.contains(q));
                let m = choose|m: int| 0 <= m < b.len() && b[m] == q;
                assert(b1[m] == q);
            }
            if b1.contains(q) {
                let k = choose|k: int| 0 <= k < b1.len() && b1[k] == q;
                assert(b[k] == q);
                assert(pattern_lt(b[k], lb));
                lemma_pattern_lt_asymmetric(q, lb);
                assert(b.contains(q));
                let m = choose|m: int| 0 <= m < a.len() && a[m] == q;
                assert(a1[m] == q);
            }
        }
        assert(strictly_sorted(a1)) by {
            assert forall|x: int, y: int| 0 <= x < y < a1.len() implies pattern_lt(
                a1[x],
                a1[y],
            ) by {
                assert(a1[x] == a[x] && a1[y] == a[y]);
            }
        }
        assert(strictly_sorted(b1)) by {
            assert forall|x: int, y: int| 0 <= x < y < b1.len() implies pattern_lt(
                b1[x],
                b1[y],
            ) by {
                assert(b1[x] == b[x] && b1[y] == b[y]);
            }
        }
        lemma_sorted_lists_equal(a1, b1);
        assert(a =~= a1.push(la));
        assert(b =~= b1.push(lb));
    }
}

/// The eight images of a pattern, sorted, each of them once.
pub fn enumerate_patterns(pattern: &[Vec<Color>]) -> (r: Vec<Vec<Vec<Color>>>)
    requires
        is_pattern(grid_of(pattern@)),
    ensures
        grids_of(r@) == enumeration(grid_of(pattern@)),
        is_enumeration(grids_of(r@), grid_of(pattern@)),
        1 <= r@.len() <= 8,
        forall|i: int| 0 <= i < r@.len() ==> is_pattern(#[trigger] grids_of(r@)[i]),
{
    let list = image_list(pattern);
    let r = sort_patterns(list);
    proof {
        let p = grid_of(pattern@);
        let g = grids_of(r@);
        assert(images(p)[0] == p);
        assert(g.contains(p));
        assert(is_enumeration(g, p));
        lemma_sorted_lists_equal(g, enumeration(p));
        assert forall|i: int| 0 <= i < r@.len() implies is_pattern(#[trigger] g[i]) by {
            assert(g.contains(g[i]));
            lemma_images_closed(p, g[i]);
        }
    }
    r
}

} // verus!
