//! What holds of a program and of the colours that are read from a model
//! of it.

use crate::answer::model_colors;
use crate::compile::{
    apply_rule, board_session, compile, lemma_walk_outcome, refusal, scan_areas, scan_off_by,
    walk_rules, walk_start, Walk,
};
use crate::encoding::{
    black, blank, clue_formula, group_pair, has_duplicate, has_gray_fixed, connection_postings, gray_fixed, initial_session, literal_fn, literals,
    pattern_postings, placement_fn, tile_fn, tile_postings, tiles_postings, white, Session,
};
use crate::expr::{
    int_var, lemma_all_any, satisfies, Assignment, BoolVar, Formula, Posting, Term,
};
use crate::patterns::is_pattern;
use crate::puzzle::{grid_of, Color, Connection, GalaxyTile, LotusTile, Puzzle, Rule, Tile};
use crate::seqs::{lemma_cells_hold, lemma_cells_member};
use vstd::prelude::*;

verus! {

/// The lotuses of a list leave what was posted before them in its place.
pub proof fn lemma_lotuses_extend(s: Session, tiles: Seq<LotusTile>, n: int)
    requires
        s.add_lotuses_upto(tiles, n) is Ok,
    ensures
        s.program.is_prefix_of(s.add_lotuses_upto(tiles, n)->Ok_0.program),
    decreases n,
{
    if n > 0 {
        lemma_lotuses_extend(s, tiles, n - 1);
    }
}

/// The galaxies of a list leave what was posted before them in its place.
pub proof fn lemma_galaxies_extend(s: Session, tiles: Seq<GalaxyTile>, n: int)
    requires
        s.add_galaxies_upto(tiles, n) is Ok,
    ensures
        s.program.is_prefix_of(s.add_galaxies_upto(tiles, n)->Ok_0.program),
    decreases n,
{
    if n > 0 {
        lemma_galaxies_extend(s, tiles, n - 1);
    }
}

/// A rule leaves what was posted before it in its place.
pub proof fn lemma_rule_extends(w: Walk, rule: Rule, board: Seq<Seq<Tile>>)
    requires
        apply_rule(w, rule, board) is Ok,
    ensures
        w.session.program.is_prefix_of(apply_rule(w, rule, board)->Ok_0.session.program),
{
    reveal(apply_rule);
    match rule {
        Rule::Lotus { tiles } => {
            lemma_lotuses_extend(w.session, tiles@, tiles@.len() as int);
        },
        Rule::Galaxy { tiles } => {
            lemma_galaxies_extend(w.session, tiles@, tiles@.len() as int);
        },
        _ => {},
    }
}

/// The walk over the rules leaves what was posted before it in its place.
pub proof fn lemma_walk_extends(start: Walk, rules: Seq<Rule>, board: Seq<Seq<Tile>>, n: int)
    requires
        walk_rules(start, rules, board, n) is Ok,
    ensures
        start.session.program.is_prefix_of(walk_rules(start, rules, board, n)->Ok_0.session.program),
    decreases n,
{
    if n > 0 {
        lemma_walk_extends(start, rules, board, n - 1);
        let w = walk_rules(start, rules, board, n - 1)->Ok_0;
        lemma_rule_extends(w, rules[n - 1], board);
    }
}

/// The program of a puzzle holds what the tiles of the puzzle ask.
pub proof fn lemma_program_holds_tiles(p: Puzzle, y: int, x: int, k: int)
    requires
        compile(p) is Ok,
        0 <= y < p.height,
        0 <= x < p.width,
        0 <= k < tile_postings(grid_of(p.tiles@)[y][x], y, x).len(),
    ensures
        compile(p)->Ok_0.program.contains(tile_postings(grid_of(p.tiles@)[y][x], y, x)[k]),
{
    let n = p.rules@.len() as int;
    let board = grid_of(p.tiles@);
    let off_by = scan_off_by(p.rules@, n)->Ok_0;
    let first = initial_session(p.height as int, p.width as int, off_by);
    let s1 = first.add_tiles(board)->Ok_0;
    let s2 = board_session(p, off_by)->Ok_0;
    let start = Walk { session: s2, white: false, black: false };
    let w = walk_rules(start, p.rules@, board, n)->Ok_0;
    let s3 = if w.white && w.black {
        w.session.add_connect_all_both_color()
    } else {
        w.session
    };
    let a = scan_areas(p.rules@, n)->Ok_0;
    let s4 = compile(p)->Ok_0;
    assert(s4 == s3.add_area_numbers(a.area, a.light, a.dark)->Ok_0);
    let f = tile_fn(board);
    let t = tile_postings(board[y][x], y, x)[k];
    assert(f(y, x).contains(t)) by {
        assert(f(y, x)[k] == t);
    }
    lemma_cells_hold(p.height as int, p.width as int, f, y, x, t);
    let tp = tiles_postings(board, p.height as int, p.width as int);
    let j = choose|j: int| 0 <= j < tp.len() && tp[j] == t;
    let at = first.program.len() + j;
    assert(s1.program[at] == t);
    assert(s2.program[at] == t);
    lemma_walk_extends(start, p.rules@, board, n);
    assert(w.session.program[at] == t);
    assert(s3.program[at] == t);
    assert(s4.program[at] == t);
}

/// In a model of the program of a puzzle, a tile that is there has exactly
/// one of the two colours, and a tile that is not there has none: the
/// colours that are read from the model are white or black for the one and
/// `None` for the other. A tile that is fixed has its colour.
pub proof fn lemma_decided_colors(
    p: Puzzle,
    a: Assignment,
    is_white: Seq<Seq<bool>>,
    is_black: Seq<Seq<bool>>,
    y: int,
    x: int,
)
    requires
        compile(p) is Ok,
        satisfies(a, compile(p)->Ok_0.program),
        0 <= y < p.height,
        0 <= x < p.width,
        is_white[y][x] == (a.bools)(BoolVar { grid: 0, y: y as usize, x: x as usize }),
        is_black[y][x] == (a.bools)(BoolVar { grid: 1, y: y as usize, x: x as usize }),
    ensures
        ({
            let tile = grid_of(p.tiles@)[y][x];
            let color = model_colors(is_white, is_black, p.height as int, p.width as int)[y][x];
            &&& tile.exists ==> color == Some(Color::White) || color == Some(Color::Black)
            &&& !tile.exists ==> color is None
            &&& tile.exists && tile.fixed ==> color == Some(tile.color)
        }),
{
    let program = compile(p)->Ok_0.program;
    let tile = grid_of(p.tiles@)[y][x];
    let ps = tile_postings(tile, y, x);
    assert forall|k: int| 0 <= k < ps.len() implies (match #[trigger] ps[k] {
        Posting::Post(f) => f.holds(a),
        _ => true,
    }) by {
        lemma_program_holds_tiles(p, y, x, k);
        let j = choose|j: int| 0 <= j < program.len() && program[j] == ps[k];
        assert(match program[j] {
            Posting::Post(f) => f.holds(a),
            _ => true,
        });
    }
    assert(white(y, x).holds(a) == is_white[y][x]);
    assert(black(y, x).holds(a) == is_black[y][x]);
    let off_by = scan_off_by(p.rules@, p.rules@.len() as int)->Ok_0;
    assert(initial_session(p.height as int, p.width as int, off_by).add_tiles(grid_of(p.tiles@)) is Ok);
    if !tile.exists {
        assert(ps[0] is Post && ps[1] is Post);
    } else {
        assert(ps[0] is Post);
        if tile.fixed {
            if tile.color == Color::Undecided {
                assert(gray_fixed(grid_of(p.tiles@)[y][x]));
                assert(false);
            }
            assert(ps[1] is Post);
        }
    }
}

/// A numeric clue holds of a count if and only if the count is the number
/// of the clue, or, where clues are off by `k`, the number plus `k` or
/// minus `k`.
pub proof fn lemma_clue_holds(count: Term, number: int, off_by: Option<int>, a: Assignment)
    ensures
        clue_formula(count, number, off_by).holds(a) <==> match off_by {
            None => count.value(a) == number,
            Some(k) => count.value(a) == number + k || count.value(a) == number - k,
        },
{
    reveal_with_fuel(Formula::holds, 3);
    reveal_with_fuel(Term::value, 3);
    match off_by {
        None => {},
        Some(k) => {
            let f = clue_formula(count, number, off_by);
            let fs = f->Or_0;
            assert(fs.len() == 2);
            lemma_all_any(fs, a, 2);
            assert(fs[0].holds(a) <==> count.value(a) == number + k);
            assert(fs[1].holds(a) <==> count.value(a) == number - k);
            if f.holds(a) {
                let i = choose|i: int| 0 <= i < fs.len() && (#[trigger] fs[i]).holds(a);
                assert(i == 0 || i == 1);
            }
        },
    }
}

/// What a connection asks holds if and only if its two cells agree in both
/// colour grids.
pub proof fn lemma_connection_holds(c: Connection, a: Assignment)
    ensures
        satisfies(a, connection_postings(c)) <==> (white(c.y1 as int, c.x1 as int).holds(a)
            == white(c.y2 as int, c.x2 as int).holds(a) && black(c.y1 as int, c.x1 as int).holds(
            a,
        ) == black(c.y2 as int, c.x2 as int).holds(a)),
{
    reveal_with_fuel(Formula::holds, 3);
    let ps = connection_postings(c);
    assert(ps.len() == 2);
    if satisfies(a, ps) {
        assert(ps[0] is Post && ps[1] is Post);
    }
}

/// The cell `(y + dy, x + dx)` has the colour of the cell `(dy, dx)` of a
/// pattern, if that cell has a colour.
pub open spec fn cell_matches(
    pat: Seq<Seq<Color>>,
    y: int,
    x: int,
    dy: int,
    dx: int,
    a: Assignment,
) -> bool {
    match pat[dy][dx] {
        Color::White => white(y + dy, x + dx).holds(a),
        Color::Black => black(y + dy, x + dx).holds(a),
        Color::Undecided => true,
    }
}

/// The pattern lies with its upper left corner at `(y, x)`: every cell of
/// the pattern that has a colour lies on a cell of that colour.
pub open spec fn pattern_matches(pat: Seq<Seq<Color>>, y: int, x: int, a: Assignment) -> bool {
    forall|dy: int, dx: int|
        0 <= dy < pat.len() && 0 <= dx < pat[0].len() ==> #[trigger] cell_matches(
            pat,
            y,
            x,
            dy,
            dx,
            a,
        )
}

/// The variables of a placement are all true if and only if the pattern
/// lies at the place.
pub proof fn lemma_literals_hold(pat: Seq<Seq<Color>>, y: int, x: int, a: Assignment)
    requires
        is_pattern(pat),
    ensures
        Formula::And(literals(pat, y, x)).holds(a) <==> pattern_matches(pat, y, x, a),
{
    reveal_with_fuel(Formula::holds, 2);
    let h = pat.len() as int;
    let w = pat[0].len() as int;
    let f = literal_fn(pat, y, x);
    let ls = literals(pat, y, x);
    lemma_all_any(ls, a, ls.len() as int);
    if Formula::And(ls).holds(a) {
        assert forall|dy: int, dx: int| 0 <= dy < h && 0 <= dx < w implies #[trigger] cell_matches(
            pat,
            y,
            x,
            dy,
            dx,
            a,
        ) by {
            if pat[dy][dx] != Color::Undecided {
                let t = f(dy, dx)[0];
                assert(f(dy, dx).contains(t));
                lemma_cells_hold(h, w, f, dy, dx, t);
                let k = choose|k: int| 0 <= k < ls.len() && ls[k] == t;
                assert(ls[k].holds(a));
                assert(t.holds(a));
            }
        }
    }
    if pattern_matches(pat, y, x, a) {
        assert forall|k: int| 0 <= k < ls.len() implies (#[trigger] ls[k]).holds(a) by {
            let c = lemma_cells_member(h, w, f, k);
            assert(cell_matches(pat, y, x, c.0, c.1, a));
            let piece = f(c.0, c.1);
            let m = choose|m: int| 0 <= m < piece.len() && piece[m] == ls[k];
            assert(m == 0);
        }
    }
}

/// What a forbidden pattern posts for one of its images holds if and only
/// if the image lies nowhere on the board.
pub proof fn lemma_pattern_forbidden(pat: Seq<Seq<Color>>, height: int, width: int, a: Assignment)
    requires
        is_pattern(pat),
    ensures
        satisfies(a, pattern_postings(pat, height, width)) <==> forall|y: int, x: int|
            0 <= y && y + pat.len() <= height && 0 <= x && x + pat[0].len() <= width
                ==> !#[trigger] pattern_matches(pat, y, x, a),
{
    reveal_with_fuel(Formula::holds, 2);
    let h = pat.len() as int;
    let w = pat[0].len() as int;
    let ps = pattern_postings(pat, height, width);
    let f = placement_fn(pat);
    if h <= height && w <= width {
        let rows = height - h + 1;
        let cols = width - w + 1;
        if satisfies(a, ps) {
            assert forall|y: int, x: int|
                0 <= y && y + h <= height && 0 <= x && x + w <= width implies !#[trigger] pattern_matches(
                pat,
                y,
                x,
                a,
            ) by {
                let t = f(y, x)[0];
                assert(f(y, x).contains(t));
                lemma_cells_hold(rows, cols, f, y, x, t);
                let k = choose|k: int| 0 <= k < ps.len() && ps[k] == t;
                assert(ps[k] is Post);
                lemma_literals_hold(pat, y, x, a);
            }
        }
        if forall|y: int, x: int|
            0 <= y && y + h <= height && 0 <= x && x + w <= width ==> !#[trigger] pattern_matches(
                pat,
                y,
                x,
                a,
            ) {
            assert forall|k: int| 0 <= k < ps.len() implies (match #[trigger] ps[k] {
                Posting::Post(g) => g.holds(a),
                _ => true,
            }) by {
                let c = lemma_cells_member(rows, cols, f, k);
                let piece = f(c.0, c.1);
                let m = choose|m: int| 0 <= m < piece.len() && piece[m] == ps[k];
                assert(m == 0);
                assert(!pattern_matches(pat, c.0, c.1, a));
                lemma_literals_hold(pat, c.0, c.1, a);
            }
        }
    } else {
        assert(ps.len() == 0);
    }
}

/// What a pair of neighbours asks of the groups holds if and only if:
/// where one of the two cells is in a group and both have a colour, they
/// are in the same group if and only if they agree in both colour grids. So
/// a cell in a group and a neighbour of its colour are in one group, and a
/// cell in a group and a neighbour of the other colour are not.
pub proof fn lemma_group_pair_holds(grid: int, p: (int, int), q: (int, int), a: Assignment)
    ensures
        satisfies(a, seq![group_pair(grid, p, q)]) <==> ({
            let gp = (a.ints)(int_var(grid, p.0, p.1));
            let gq = (a.ints)(int_var(grid, q.0, q.1));
            (gp != -1 || gq != -1) && !blank(p.0, p.1).holds(a) && !blank(q.0, q.1).holds(a) ==> (
            gp == gq <==> black(p.0, p.1).holds(a) == black(q.0, q.1).holds(a) && white(
                p.0,
                p.1,
            ).holds(a) == white(q.0, q.1).holds(a))
        }),
{
    reveal_with_fuel(Formula::holds, 4);
    reveal_with_fuel(Term::value, 3);
    let ps = seq![group_pair(grid, p, q)];
    let f = group_pair(grid, p, q)->Post_0;
    let guard = f->Imp_0;
    let body = f->Imp_1;
    let gs = guard->Or_0;
    let bs = body->Or_0;
    let same = bs[2]->Iff_1;
    lemma_all_any(gs, a, 2);
    lemma_all_any(bs, a, 3);
    lemma_all_any(same->And_0, a, 2);
    lemma_all_any(blank(p.0, p.1)->And_0, a, 2);
    lemma_all_any(blank(q.0, q.1)->And_0, a, 2);
    assert(ps[0] == group_pair(grid, p, q));
    assert(satisfies(a, ps) <==> f.holds(a)) by {
        if f.holds(a) {
            assert forall|i: int| 0 <= i < ps.len() implies (match #[trigger] ps[i] {
                Posting::Post(g) => g.holds(a),
                _ => true,
            }) by {}
        }
        if satisfies(a, ps) {
            assert(ps[0] is Post);
        }
    }
    if guard.holds(a) {
        let i = choose|i: int| 0 <= i < gs.len() && (#[trigger] gs[i]).holds(a);
        assert(i == 0 || i == 1);
    }
    if body.holds(a) {
        let i = choose|i: int| 0 <= i < bs.len() && (#[trigger] bs[i]).holds(a);
        assert(i == 0 || i == 1 || i == 2);
    }
    assert(gs[0].holds(a) <==> (a.ints)(int_var(grid, p.0, p.1)) != -1);
    assert(gs[1].holds(a) <==> (a.ints)(int_var(grid, q.0, q.1)) != -1);
    assert(bs[0] == blank(p.0, p.1) && bs[1] == blank(q.0, q.1));
}

/// Two rules say by how much clues are off, or one says so with a number
/// that is not positive.
pub open spec fn off_by_refused(rules: Seq<Rule>) -> bool {
    ||| exists|i: int, j: int|
        0 <= i < j < rules.len() && (#[trigger] rules[i]) is OffByX && (#[trigger] rules[j]) is OffByX
    ||| exists|i: int|
        0 <= i < rules.len() && (#[trigger] rules[i] matches Rule::OffByX { number } && number <= 0)
}

/// The rule gives the size of the regions of one of the two colours: of
/// the white regions if `light`, else of the others.
pub open spec fn sizes(rule: Rule, light: bool) -> bool {
    rule matches Rule::RegionArea { color, size } && (color == Color::White) == light
}

/// Two rules give area clues, or two rules give the size of the regions of
/// one colour.
pub open spec fn sizes_refused(rules: Seq<Rule>) -> bool {
    ||| exists|i: int, j: int|
        0 <= i < j < rules.len() && (#[trigger] rules[i]) is AreaNumber && (
        #[trigger] rules[j]) is AreaNumber
    ||| exists|i: int, j: int|
        0 <= i < j < rules.len() && sizes(#[trigger] rules[i], true) && sizes(
            #[trigger] rules[j],
            true,
        )
    ||| exists|i: int, j: int|
        0 <= i < j < rules.len() && sizes(#[trigger] rules[i], false) && sizes(
            #[trigger] rules[j],
            false,
        )
}

/// A rule gives two area clues for one cell.
pub open spec fn area_refused(rules: Seq<Rule>) -> bool {
    exists|i: int|
        0 <= i < rules.len() && (#[trigger] rules[i] matches Rule::AreaNumber { tiles }
            && has_duplicate(tiles@))
}

/// The puzzle is refused: by the rules on clues that are off, by a tile
/// that is fixed to gray, by a rule that is refused in the walk over the
/// rules, by the rules on the sizes of regions, or by two area clues for
/// one cell.
pub open spec fn refused(p: Puzzle) -> bool {
    ||| off_by_refused(p.rules@)
    ||| has_gray_fixed(grid_of(p.tiles@), p.height as int, p.width as int)
    ||| exists|i: int|
        0 <= i < p.rules@.len() && refusal(
            #[trigger] p.rules@[i],
            grid_of(p.tiles@),
            p.height as int,
            p.width as int,
        ) is Some
    ||| sizes_refused(p.rules@)
    ||| area_refused(p.rules@)
}

/// The scan of the first `n` rules for clues that are off refuses them if
/// and only if two of them say so, or one with a number that is not
/// positive.
pub proof fn lemma_off_by_outcome(rules: Seq<Rule>, n: int)
    requires
        0 <= n <= rules.len(),
    ensures
        scan_off_by(rules, n) is Err <==> off_by_refused(rules.take(n)),
        scan_off_by(rules, n) is Ok ==> (scan_off_by(rules, n)->Ok_0 is Some <==> exists|i: int|
            0 <= i < n && (#[trigger] rules[i]) is OffByX),
    decreases n,
{
    let t = rules.take(n);
    if n > 0 {
        lemma_off_by_outcome(rules, n - 1);
        let t1 = rules.take(n - 1);
        assert forall|i: int| 0 <= i < n - 1 implies t1[i] == rules[i] && t[i] == rules[i] by {}
        assert(t[n - 1] == rules[n - 1]);
        if off_by_refused(t1) {
            if exists|i: int, j: int|
                0 <= i < j < t1.len() && (#[trigger] t1[i]) is OffByX && (#[trigger] t1[j]) is OffByX {
                let (i, j) = choose|i: int, j: int|
                    0 <= i < j < t1.len() && (#[trigger] t1[i]) is OffByX && (
                    #[trigger] t1[j]) is OffByX;
                assert(t[i] is OffByX && t[j] is OffByX);
            } else {
                let i = choose|i: int|
                    0 <= i < t1.len() && (#[trigger] t1[i] matches Rule::OffByX { number } && number
                        <= 0);
                assert(t[i] matches Rule::OffByX { number } && number <= 0);
            }
            assert(off_by_refused(t));
        } else {
            let before = scan_off_by(rules, n - 1)->Ok_0;
            if off_by_refused(t) {
                if exists|i: int, j: int|
                    0 <= i < j < t.len() && (#[trigger] t[i]) is OffByX && (#[trigger] t[j]) is OffByX {
                    let (i, j) = choose|i: int, j: int|
                        0 <= i < j < t.len() && (#[trigger] t[i]) is OffByX && (
                        #[trigger] t[j]) is OffByX;
                    if j < n - 1 {
                        assert(t1[i] is OffByX && t1[j] is OffByX);
                    }
                    assert(rules[i] is OffByX);
                    assert(j == n - 1);
                } else {
                    let i = choose|i: int|
                        0 <= i < t.len() && (#[trigger] t[i] matches Rule::OffByX { number }
                            && number <= 0);
                    if i < n - 1 {
                        assert(t1[i] matches Rule::OffByX { number } && number <= 0);
                    }
                    assert(i == n - 1);
                }
            }
            if scan_off_by(rules, n) is Err {
                if before is Some {
                    let i = choose|i: int| 0 <= i < n - 1 && (#[trigger] rules[i]) is OffByX;
                    assert(t[i] is OffByX && t[n - 1] is OffByX);
                } else {
                    assert(t[n - 1] matches Rule::OffByX { number } && number <= 0);
                }
            } else {
                if rules[n - 1] is OffByX {
                    assert(rules[n - 1] is OffByX);
                } else if before is Some {
                    let i = choose|i: int| 0 <= i < n - 1 && (#[trigger] rules[i]) is OffByX;
                    assert(rules[i] is OffByX);
                }
            }
        }
    }
}

/// The scan of the first `n` rules for the sizes of regions refuses them
/// if and only if two of them give area clues, or two give the size for
/// one colour. Else it has the area clues of the one rule that gives some.
pub proof fn lemma_areas_outcome(rules: Seq<Rule>, n: int)
    requires
        0 <= n <= rules.len(),
    ensures
        scan_areas(rules, n) is Err <==> sizes_refused(rules.take(n)),
        scan_areas(rules, n) is Ok ==> ({
            let a = scan_areas(rules, n)->Ok_0;
            &&& a.light is Some <==> exists|i: int| 0 <= i < n && sizes(#[trigger] rules[i], true)
            &&& a.dark is Some <==> exists|i: int| 0 <= i < n && sizes(#[trigger] rules[i], false)
            &&& a.area is None ==> forall|i: int| 0 <= i < n ==> !((#[trigger] rules[i]) is AreaNumber)
            &&& a.area is Some ==> exists|i: int|
                0 <= i < n && (#[trigger] rules[i] matches Rule::AreaNumber { tiles } && tiles@
                    == a.area->Some_0)
        }),
    decreases n,
{
    let t = rules.take(n);
    if n > 0 {
        lemma_areas_outcome(rules, n - 1);
        let t1 = rules.take(n - 1);
        let last = rules[n - 1];
        assert forall|i: int| 0 <= i < n - 1 implies t1[i] == rules[i] && t[i] == rules[i] by {}
        assert(t[n - 1] == last);
        if sizes_refused(t1) {
            if exists|i: int, j: int|
                0 <= i < j < t1.len() && (#[trigger] t1[i]) is AreaNumber && (
                #[trigger] t1[j]) is AreaNumber {
                let (i, j) = choose|i: int, j: int|
                    0 <= i < j < t1.len() && (#[trigger] t1[i]) is AreaNumber && (
                    #[trigger] t1[j]) is AreaNumber;
                assert(t[i] is AreaNumber && t[j] is AreaNumber);
            } else if exists|i: int, j: int|
                0 <= i < j < t1.len() && sizes(#[trigger] t1[i], true) && sizes(
                    #[trigger] t1[j],
                    true,
                ) {
                let (i, j) = choose|i: int, j: int|
                    0 <= i < j < t1.len() && sizes(#[trigger] t1[i], true) && sizes(
                        #[trigger] t1[j],
                        true,
                    );
                assert(sizes(t[i], true) && sizes(t[j], true));
            } else {
                let (i, j) = choose|i: int, j: int|
                    0 <= i < j < t1.len() && sizes(#[trigger] t1[i], false) && sizes(
                        #[trigger] t1[j],
                        false,
                    );
                assert(sizes(t[i], false) && sizes(t[j], false));
            }
            assert(sizes_refused(t));
        } else {
            let a = scan_areas(rules, n - 1)->Ok_0;
            if sizes_refused(t) {
                if exists|i: int, j: int|
                    0 <= i < j < t.len() && (#[trigger] t[i]) is AreaNumber && (
                    #[trigger] t[j]) is AreaNumber {
                    let (i, j) = choose|i: int, j: int|
                        0 <= i < j < t.len() && (#[trigger] t[i]) is AreaNumber && (
                        #[trigger] t[j]) is AreaNumber;
                    if j < n - 1 {
                        assert(t1[i] is AreaNumber && t1[j] is AreaNumber);
                    }
                    assert(rules[i] is AreaNumber);
                } else if exists|i: int, j: int|
                    0 <= i < j < t.len() && sizes(#[trigger] t[i], true) && sizes(
                        #[trigger] t[j],
                        true,
                    ) {
                    let (i, j) = choose|i: int, j: int|
                        0 <= i < j < t.len() && sizes(#[trigger] t[i], true) && sizes(
                            #[trigger] t[j],
                            true,
                        );
                    if j < n - 1 {
                        assert(sizes(t1[i], true) && sizes(t1[j], true));
                    }
                    assert(sizes(rules[i], true));
                } else {
                    let (i, j) = choose|i: int, j: int|
                        0 <= i < j < t.len() && sizes(#[trigger] t[i], false) && sizes(
                            #[trigger] t[j],
                            false,
                        );
                    if j < n - 1 {
                        assert(sizes(t1[i], false) && sizes(t1[j], false));
                    }
                    assert(sizes(rules[i], false));
                }
            }
            if scan_areas(rules, n) is Err {
                if last is AreaNumber {
                    let i = choose|i: int|
                        0 <= i < n - 1 && (#[trigger] rules[i] matches Rule::AreaNumber { tiles }
                            && tiles@ == a.area->Some_0);
                    assert(t[i] is AreaNumber && t[n - 1] is AreaNumber);
                } else if sizes(last, true) {
                    let i = choose|i: int| 0 <= i < n - 1 && sizes(#[trigger] rules[i], true);
                    assert(sizes(t[i], true) && sizes(t[n - 1], true));
                } else {
                    let i = choose|i: int| 0 <= i < n - 1 && sizes(#[trigger] rules[i], false);
                    assert(sizes(t[i], false) && sizes(t[n - 1], false));
                }
            } else {
                let b = scan_areas(rules, n)->Ok_0;
                if b.light is Some {
                    if sizes(last, true) {
                        assert(sizes(rules[n - 1], true));
                    } else {
                        let i = choose|i: int| 0 <= i < n - 1 && sizes(#[trigger] rules[i], true);
                        assert(sizes(rules[i], true));
                    }
                }
                if b.dark is Some {
                    if sizes(last, false) {
                        assert(sizes(rules[n - 1], false));
                    } else {
                        let i = choose|i: int| 0 <= i < n - 1 && sizes(#[trigger] rules[i], false);
                        assert(sizes(rules[i], false));
                    }
                }
                if b.area is Some {
                    if last is AreaNumber {
                        assert(rules[n - 1] matches Rule::AreaNumber { tiles } && tiles@
                            == b.area->Some_0);
                    } else {
                        let i = choose|i: int|
                            0 <= i < n - 1 && (#[trigger] rules[i] matches Rule::AreaNumber { tiles }
                                && tiles@ == a.area->Some_0);
                        assert(rules[i] matches Rule::AreaNumber { tiles } && tiles@
                            == b.area->Some_0);
                    }
                }
            }
        }
    }
}

/// A puzzle has no program if and only if it is refused: by the rules on
/// clues that are off, by a tile that is fixed to gray, by a rule that is
/// refused in the walk over the rules, by the rules on the sizes of
/// regions, or by two area clues for one cell.
pub proof fn lemma_refused_iff(p: Puzzle)
    ensures
        compile(p) is Err <==> refused(p),
{
    let rules = p.rules@;
    let n = rules.len() as int;
    let board = grid_of(p.tiles@);
    let h = p.height as int;
    let w = p.width as int;
    assert(rules.take(n) =~= rules);
    lemma_off_by_outcome(rules, n);
    lemma_areas_outcome(rules, n);
    if scan_off_by(rules, n) is Ok {
        let off_by = scan_off_by(rules, n)->Ok_0;
        if board_session(p, off_by) is Ok {
            let start = walk_start(p, off_by);
            lemma_walk_outcome(start, rules, board, n);
            assert(start.session.height == h && start.session.width == w);
            let walked = walk_rules(start, rules, board, n);
            if walked is Ok {
                if scan_areas(rules, n) is Ok {
                    let a = scan_areas(rules, n)->Ok_0;
                    if compile(p) is Err {
                        let i = choose|i: int|
                            0 <= i < n && (#[trigger] rules[i] matches Rule::AreaNumber { tiles }
                                && tiles@ == a.area->Some_0);
                        assert(rules[i] matches Rule::AreaNumber { tiles } && has_duplicate(
                            tiles@,
                        ));
                    }
                    if area_refused(rules) {
                        let i = choose|i: int|
                            0 <= i < rules.len() && (#[trigger] rules[i] matches Rule::AreaNumber {
                                tiles,
                            } && has_duplicate(tiles@));
                        assert(rules[i] is AreaNumber);
                        assert(a.area is Some);
                        let j = choose|j: int|
                            0 <= j < n && (#[trigger] rules[j] matches Rule::AreaNumber { tiles }
                                && tiles@ == a.area->Some_0);
                        if i != j {
                            if i < j {
                                assert(rules[i] is AreaNumber && rules[j] is AreaNumber);
                            } else {
                                assert(rules[j] is AreaNumber && rules[i] is AreaNumber);
                            }
                            assert(sizes_refused(rules));
                        }
                    }
                }
            } else {
                let i = choose|i: int|
                    0 <= i < n && refusal(#[trigger] rules[i], board, h, w) == Some(walked->Err_0);
                assert(refusal(rules[i], board, h, w) is Some);
            }
        }
    }
}

} // verus!
