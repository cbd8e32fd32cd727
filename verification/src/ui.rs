//! A text rendering of the world: a header with the tick and the stock, then
//! one line of characters per map row.

use vstd::prelude::*;

use crate::domain::{Position, ResourceNode, ResourceType, RobotKind, RobotSnapshot, WorldSnapshot};

verus! {

/// The decimal digits of `n`, most significant first.
pub open spec fn decimal_digits(n: nat) -> Seq<char>
    decreases n,
{
    if n < 10 {
        seq![digit_char(n)]
    } else {
        decimal_digits(n / 10).push(digit_char(n % 10))
    }
}

pub open spec fn digit_char(d: nat) -> char {
    if d == 0 {
        '0'
    } else if d == 1 {
        '1'
    } else if d == 2 {
        '2'
    } else if d == 3 {
        '3'
    } else if d == 4 {
        '4'
    } else if d == 5 {
        '5'
    } else if d == 6 {
        '6'
    } else if d == 7 {
        '7'
    } else if d == 8 {
        '8'
    } else {
        '9'
    }
}

/// The digit character of `d`, below ten.
fn digit_to_char(d: u64) -> (c: char)
    requires
        d < 10,
    ensures
        c == digit_char(d as nat),
{
    if d == 0 {
        '0'
    } else if d == 1 {
        '1'
    } else if d == 2 {
        '2'
    } else if d == 3 {
        '3'
    } else if d == 4 {
        '4'
    } else if d == 5 {
        '5'
    } else if d == 6 {
        '6'
    } else if d == 7 {
        '7'
    } else if d == 8 {
        '8'
    } else {
        '9'
    }
}

/// The digits of `m` still to write: none once `m` is used up.
spec fn leading_digits(m: nat) -> Seq<char> {
    if m == 0 {
        Seq::empty()
    } else {
        decimal_digits(m)
    }
}

/// The decimal digits of `n`, most significant first, with no sign,
/// padding or separator.
fn decimal_string(n: u64) -> (s: String)
    ensures
        s@ == decimal_digits(n as nat),
{
    let mut digits: Vec<char> = Vec::new();
    digits.push(digit_to_char(n % 10));
    let mut m: u64 = n / 10;
    assert(digits@ =~= seq![digit_char((n % 10) as nat)]);
    while m > 0
        invariant
            decimal_digits(n as nat) == leading_digits(m as nat) + digits@,
        decreases m,
    {
        let c = digit_to_char(m % 10);
        let ghost before = digits@;
        digits.insert(0, c);
        proof {
            assert(digits@ =~= seq![c] + before);
            if m < 10 {
                assert(leading_digits(m as nat) =~= seq![c]);
                assert((m / 10) as nat == 0);
            } else {
                assert(leading_digits(m as nat) =~= leading_digits((m / 10) as nat).push(c));
            }
            assert(leading_digits(m as nat) + before =~= leading_digits((m / 10) as nat) + digits@);
        }
        m = m / 10;
    }
    assert(leading_digits(0) + digits@ =~= digits@);
    let mut s = String::new();
    let mut i: usize = 0;
    while i < digits.len()
        invariant
            i <= digits@.len(),
            s@ == digits@.subrange(0, i as int),
        decreases digits@.len() - i,
    {
        push_char(&mut s, digits[i]);
        i = i + 1;
        assert(s@ =~= digits@.subrange(0, i as int));
    }
    assert(digits@.subrange(0, digits@.len() as int) =~= digits@);
    s
}

/// `String::push`: appends one character.
#[verifier::external_body]
fn push_char(s: &mut String, c: char)
    ensures
        final(s)@ == old(s)@.push(c),
{
    s.push(c)
}

pub open spec fn robot_char(k: RobotKind) -> char {
    match k {
        RobotKind::Scout => 'S',
        RobotKind::Collector => 'R',
    }
}

pub open spec fn resource_char(t: ResourceType) -> char {
    match t {
        ResourceType::Energy => 'E',
        ResourceType::Crystal => 'C',
    }
}

/// The base, or nothing.
pub open spec fn base_layer(s: WorldSnapshot, p: Position) -> char {
    if s.base_position == p {
        'B'
    } else {
        '.'
    }
}

/// Known obstacles cover what lies below them.
pub open spec fn obstacle_layer(obstacles: Seq<Position>, p: Position, below: char) -> char {
    if obstacles.contains(p) {
        '#'
    } else {
        below
    }
}

/// The last deposit listed at `p` covers what lies below it.
pub open spec fn resource_layer(rs: Seq<ResourceNode>, p: Position, below: char) -> char
    decreases rs.len(),
{
    if rs.len() == 0 {
        below
    } else if rs.last().position == p {
        resource_char(rs.last().resource_type)
    } else {
        resource_layer(rs.drop_last(), p, below)
    }
}

/// The last robot listed at `p` covers everything else.
pub open spec fn robot_layer(rs: Seq<RobotSnapshot>, p: Position, below: char) -> char
    decreases rs.len(),
{
    if rs.len() == 0 {
        below
    } else if rs.last().position == p {
        robot_char(rs.last().kind)
    } else {
        robot_layer(rs.drop_last(), p, below)
    }
}

/// The character drawn for the tile at `p`: a robot above a deposit above
/// an obstacle above the base above an empty tile (`.`).
pub open spec fn cell_char(s: WorldSnapshot, p: Position) -> char {
    robot_layer(
        s.robots@,
        p,
        resource_layer(s.resources@, p, obstacle_layer(s.obstacles@, p, base_layer(s, p))),
    )
}

/// Widens `w` so that it covers column `p.x`.
pub open spec fn grow_width(w: int, p: Position) -> int {
    if p.x >= w {
        p.x + 1
    } else {
        w
    }
}

/// Raises `h` so that it covers row `p.y`.
pub open spec fn grow_height(h: int, p: Position) -> int {
    if p.y >= h {
        p.y + 1
    } else {
        h
    }
}

pub open spec fn fold_width(w: int, ps: Seq<Position>) -> int
    decreases ps.len(),
{
    if ps.len() == 0 {
        w
    } else {
        grow_width(fold_width(w, ps.drop_last()), ps.last())
    }
}

pub open spec fn fold_height(h: int, ps: Seq<Position>) -> int
    decreases ps.len(),
{
    if ps.len() == 0 {
        h
    } else {
        grow_height(fold_height(h, ps.drop_last()), ps.last())
    }
}

/// Every position a snapshot draws: the obstacles, the deposits, the robots.
pub open spec fn drawn_positions(s: WorldSnapshot) -> Seq<Position> {
    s.obstacles@ + s.resources@.map_values(|r: ResourceNode| r.position) + s.robots@.map_values(
        |r: RobotSnapshot| r.position,
    )
}

/// The number of columns drawn: enough for the base and every drawn
/// position, and at least one.
pub open spec fn map_width(s: WorldSnapshot) -> int {
    let w = fold_width(s.base_position.x + 1, drawn_positions(s));
    if w < 1 {
        1
    } else {
        w
    }
}

/// The number of rows drawn.
pub open spec fn map_height(s: WorldSnapshot) -> int {
    let h = fold_height(s.base_position.y + 1, drawn_positions(s));
    if h < 1 {
        1
    } else {
        h
    }
}

/// No coordinate in the snapshot is the greatest `i32`, so that one more
/// column or row can always be counted.
pub open spec fn coordinates_bounded(s: WorldSnapshot) -> bool {
    &&& s.base_position.x < i32::MAX
    &&& s.base_position.y < i32::MAX
    &&& forall|i: int|
        0 <= i < drawn_positions(s).len() ==> (#[trigger] drawn_positions(s)[i]).x < i32::MAX
            && drawn_positions(s)[i].y < i32::MAX
}

proof fn lemma_fold_width_push(w: int, ps: Seq<Position>, p: Position)
    ensures
        fold_width(w, ps.push(p)) == grow_width(fold_width(w, ps), p),
        fold_height(w, ps.push(p)) == grow_height(fold_height(w, ps), p),
{
    assert(ps.push(p).drop_last() =~= ps);
}

proof fn lemma_fold_bounds(w: int, ps: Seq<Position>)
    requires
        w <= i32::MAX,
        forall|i: int| 0 <= i < ps.len() ==> (#[trigger] ps[i]).x < i32::MAX && ps[i].y < i32::MAX,
    ensures
        w <= fold_width(w, ps) <= i32::MAX,
        w <= fold_height(w, ps) <= i32::MAX,
    decreases ps.len(),
{
    if ps.len() > 0 {
        lemma_fold_bounds(w, ps.drop_last());
        assert(ps.last() == ps[ps.len() - 1]);
    }
}

/// Grows `width` and `height` so that they cover `pos`.
fn grow_size(pos: Position, width: &mut i32, height: &mut i32)
    requires
        pos.x < i32::MAX,
        pos.y < i32::MAX,
    ensures
        *final(width) == grow_width(*old(width) as int, pos),
        *final(height) == grow_height(*old(height) as int, pos),
{
    if pos.x >= *width {
        *width = pos.x + 1;
    }
    if pos.y >= *height {
        *height = pos.y + 1;
    }
}

/// The number of columns and rows drawn.
fn map_size(snapshot: &WorldSnapshot) -> (r: (usize, usize))
    requires
        coordinates_bounded(*snapshot),
    ensures
        r.0 == map_width(*snapshot),
        r.1 == map_height(*snapshot),
{
    let ghost all = drawn_positions(*snapshot);
    let ghost obs = snapshot.obstacles@;
    let ghost res = snapshot.resources@.map_values(|r: ResourceNode| r.position);
    let ghost rob = snapshot.robots@.map_values(|r: RobotSnapshot| r.position);
    let ghost w0 = snapshot.base_position.x + 1;
    let ghost h0 = snapshot.base_position.y + 1;
    let mut width = snapshot.base_position.x + 1;
    let mut height = snapshot.base_position.y + 1;
    let mut i: usize = 0;
    assert(obs.subrange(0, 0) =~= Seq::<Position>::empty());
    while i < snapshot.obstacles.len()
        invariant
            coordinates_bounded(*snapshot),
            all == obs + res + rob,
            all == drawn_positions(*snapshot),
            obs == snapshot.obstacles@,
            i <= obs.len(),
            width == fold_width(w0, obs.subrange(0, i as int)),
            height == fold_height(h0, obs.subrange(0, i as int)),
        decreases obs.len() - i,
    {
        let pos = snapshot.obstacles[i];
        proof {
            assert(drawn_positions(*snapshot)[i as int] == pos);
            lemma_fold_width_push(w0, obs.subrange(0, i as int), pos);
            lemma_fold_width_push(h0, obs.subrange(0, i as int), pos);
            assert(obs.subrange(0, i as int + 1) =~= obs.subrange(0, i as int).push(pos));
        }
        grow_size(pos, &mut width, &mut height);
        i = i + 1;
    }
    assert(obs.subrange(0, obs.len() as int) =~= obs);
    let mut j: usize = 0;
    assert(obs + res.subrange(0, 0) =~= obs);
    while j < snapshot.resources.len()
        invariant
            coordinates_bounded(*snapshot),
            all == obs + res + rob,
            all == drawn_positions(*snapshot),
            res == snapshot.resources@.map_values(|r: ResourceNode| r.position),
            j <= res.len(),
            width == fold_width(w0, obs + res.subrange(0, j as int)),
            height == fold_height(h0, obs + res.subrange(0, j as int)),
        decreases res.len() - j,
    {
        let pos = snapshot.resources[j].position;
        proof {
            assert(res[j as int] == pos);
            assert(all[obs.len() + j] == res[j as int]);
            assert(drawn_positions(*snapshot)[obs.len() + j] == pos);
            lemma_fold_width_push(w0, obs + res.subrange(0, j as int), pos);
            lemma_fold_width_push(h0, obs + res.subrange(0, j as int), pos);
            assert(obs + res.subrange(0, j as int + 1) =~= (obs + res.subrange(0, j as int)).push(pos));
        }
        grow_size(pos, &mut width, &mut height);
        j = j + 1;
    }
    assert(res.subrange(0, res.len() as int) =~= res);
    let mut k: usize = 0;
    assert(obs + res + rob.subrange(0, 0) =~= obs + res);
    while k < snapshot.robots.len()
        invariant
            coordinates_bounded(*snapshot),
            all == obs + res + rob,
            all == drawn_positions(*snapshot),
            rob == snapshot.robots@.map_values(|r: RobotSnapshot| r.position),
            k <= rob.len(),
            width == fold_width(w0, obs + res + rob.subrange(0, k as int)),
            height == fold_height(h0, obs + res + rob.subrange(0, k as int)),
        decreases rob.len() - k,
    {
        let pos = snapshot.robots[k].position;
        proof {
            assert(rob[k as int] == pos);
            assert(all[obs.len() + res.len() + k] == rob[k as int]);
            assert(drawn_positions(*snapshot)[obs.len() + res.len() + k] == pos);
            lemma_fold_width_push(w0, obs + res + rob.subrange(0, k as int), pos);
            lemma_fold_width_push(h0, obs + res + rob.subrange(0, k as int), pos);
            assert(obs + res + rob.subrange(0, k as int + 1) =~= (obs + res + rob.subrange(
                0,
                k as int,
            )).push(pos));
        }
        grow_size(pos, &mut width, &mut height);
        k = k + 1;
    }
    assert(obs + res + rob.subrange(0, rob.len() as int) =~= all);
    if width < 1 {
        width = 1;
    }
    if height < 1 {
        height = 1;
    }
    (width as usize, height as usize)
}

/// The tile at column `x` and row `y`.
pub open spec fn at(x: int, y: int) -> Position {
    Position { x: x as i32, y: y as i32 }
}

/// Draws `value` at `pos` when `pos` lies on row `y` of a row of cells.
fn place(row: &mut Vec<char>, y: usize, pos: Position, value: char)
    requires
        y <= i32::MAX,
        old(row)@.len() <= i32::MAX,
    ensures
        final(row)@.len() == old(row)@.len(),
        forall|x: int|
            0 <= x < old(row)@.len() ==> #[trigger] final(row)@[x] == if pos == at(x, y as int) {
                value
            } else {
                old(row)@[x]
            },
{
    if pos.x < 0 || pos.y < 0 {
        return;
    }
    if pos.y as usize != y || pos.x as usize >= row.len() {
        return;
    }
    row.set(pos.x as usize, value);
}

/// The cells of row `y`, `width` of them.
fn paint_row(snapshot: &WorldSnapshot, y: usize, width: usize) -> (row: Vec<char>)
    requires
        y <= i32::MAX,
        width <= i32::MAX,
    ensures
        row@.len() == width,
        forall|x: int| 0 <= x < width ==> #[trigger] row@[x] == cell_char(*snapshot, at(x, y as int)),
{
    let s = snapshot;
    let mut row: Vec<char> = Vec::new();
    let mut x: usize = 0;
    while x < width
        invariant
            x <= width,
            row@ == Seq::new(x as nat, |k: int| '.'),
        decreases width - x,
    {
        row.push('.');
        x = x + 1;
        assert(row@ =~= Seq::new(x as nat, |k: int| '.'));
    }
    place(&mut row, y, s.base_position, 'B');
    let mut i: usize = 0;
    while i < s.obstacles.len()
        invariant
            y <= i32::MAX,
            width <= i32::MAX,
            i <= s.obstacles@.len(),
            row@.len() == width,
            forall|x: int|
                0 <= x < width ==> #[trigger] row@[x] == obstacle_layer(
                    s.obstacles@.subrange(0, i as int),
                    at(x, y as int),
                    base_layer(*s, at(x, y as int)),
                ),
        decreases s.obstacles@.len() - i,
    {
        let ghost before = row@;
        place(&mut row, y, s.obstacles[i], '#');
        proof {
            let sub = s.obstacles@.subrange(0, i as int);
            let sub2 = s.obstacles@.subrange(0, i as int + 1);
            assert(sub2 =~= sub.push(s.obstacles@[i as int]));
            assert forall|x: int| 0 <= x < width implies #[trigger] row@[x] == obstacle_layer(
                sub2,
                at(x, y as int),
                base_layer(*s, at(x, y as int)),
            ) by {
                crate::map::lemma_push_contains(sub, s.obstacles@[i as int], at(x, y as int));
            }
        }
        i = i + 1;
    }
    assert(s.obstacles@.subrange(0, s.obstacles@.len() as int) =~= s.obstacles@);
    let mut j: usize = 0;
    assert(s.resources@.subrange(0, 0) =~= Seq::<ResourceNode>::empty());
    while j < s.resources.len()
        invariant
            y <= i32::MAX,
            width <= i32::MAX,
            j <= s.resources@.len(),
            row@.len() == width,
            forall|x: int|
                0 <= x < width ==> #[trigger] row@[x] == resource_layer(
                    s.resources@.subrange(0, j as int),
                    at(x, y as int),
                    obstacle_layer(s.obstacles@, at(x, y as int), base_layer(*s, at(x, y as int))),
                ),
        decreases s.resources@.len() - j,
    {
        let r = s.resources[j];
        let value = match r.resource_type {
            ResourceType::Energy => 'E',
            ResourceType::Crystal => 'C',
        };
        place(&mut row, y, r.position, value);
        proof {
            let sub2 = s.resources@.subrange(0, j as int + 1);
            assert(sub2.drop_last() =~= s.resources@.subrange(0, j as int));
            assert(sub2.last() == r);
        }
        j = j + 1;
    }
    assert(s.resources@.subrange(0, s.resources@.len() as int) =~= s.resources@);
    let mut k: usize = 0;
    assert(s.robots@.subrange(0, 0) =~= Seq::<RobotSnapshot>::empty());
    while k < s.robots.len()
        invariant
            y <= i32::MAX,
            width <= i32::MAX,
            k <= s.robots@.len(),
            row@.len() == width,
            forall|x: int|
                0 <= x < width ==> #[trigger] row@[x] == robot_layer(
                    s.robots@.subrange(0, k as int),
                    at(x, y as int),
                    resource_layer(
                        s.resources@,
                        at(x, y as int),
                        obstacle_layer(s.obstacles@, at(x, y as int), base_layer(*s, at(x, y as int))),
                    ),
                ),
        decreases s.robots@.len() - k,
    {
        let r = s.robots[k];
        let value = match r.kind {
            RobotKind::Scout => 'S',
            RobotKind::Collector => 'R',
        };
        place(&mut row, y, r.position, value);
        proof {
            let sub2 = s.robots@.subrange(0, k as int + 1);
            assert(sub2.drop_last() =~= s.robots@.subrange(0, k as int));
            assert(sub2.last() == r);
        }
        k = k + 1;
    }
    assert(s.robots@.subrange(0, s.robots@.len() as int) =~= s.robots@);
    row
}

/// The map, one line per row: line `y` holds `cell_char` of each column.
pub fn map_lines(snapshot: &WorldSnapshot) -> (lines: Vec<String>)
    requires
        coordinates_bounded(*snapshot),
    ensures
        lines@.len() == map_height(*snapshot),
        forall|y: int|
            0 <= y < lines@.len() ==> (#[trigger] lines@[y])@.len() == map_width(*snapshot),
        forall|y: int, x: int|
            0 <= y < lines@.len() && 0 <= x < map_width(*snapshot) ==> #[trigger] lines@[y]@[x]
                == cell_char(*snapshot, at(x, y)),
{
    let (width, height) = map_size(snapshot);
    proof {
        lemma_fold_bounds(snapshot.base_position.x + 1, drawn_positions(*snapshot));
        lemma_fold_bounds(snapshot.base_position.y + 1, drawn_positions(*snapshot));
    }
    let mut lines: Vec<String> = Vec::new();
    let mut y: usize = 0;
    while y < height
        invariant
            width == map_width(*snapshot),
            height == map_height(*snapshot),
            width <= i32::MAX,
            height <= i32::MAX,
            y <= height,
            lines@.len() == y,
            forall|r: int| 0 <= r < y ==> (#[trigger] lines@[r])@.len() == width,
            forall|r: int, x: int|
                0 <= r < y && 0 <= x < width ==> #[trigger] lines@[r]@[x] == cell_char(
                    *snapshot,
                    at(x, r),
                ),
        decreases height - y,
    {
        let row = paint_row(snapshot, y, width);
        let mut line = String::new();
        let mut x: usize = 0;
        while x < width
            invariant
                x <= width,
                row@.len() == width,
                line@ == row@.subrange(0, x as int),
            decreases width - x,
        {
            push_char(&mut line, row[x]);
            x = x + 1;
            assert(line@ =~= row@.subrange(0, x as int));
        }
        assert(line@ =~= row@);
        lines.push(line);
        y = y + 1;
    }
    lines
}

/// The whole display: the tick, the stock, an empty line, then the map.
pub fn display_lines(snapshot: &WorldSnapshot) -> (lines: Vec<String>)
    requires
        coordinates_bounded(*snapshot),
    ensures
        lines@.len() == 3 + map_height(*snapshot),
        lines@[0]@ == "Tick: "@ + decimal_digits(snapshot.tick as nat),
        lines@[1]@ == "Energie: "@ + decimal_digits(snapshot.collected_energy as nat) + " | Cristaux: "@
            + decimal_digits(snapshot.collected_crystals as nat),
        lines@[2]@ == Seq::<char>::empty(),
        forall|y: int|
            0 <= y < map_height(*snapshot) ==> (#[trigger] lines@[3 + y])@.len() == map_width(*snapshot),
        forall|y: int, x: int|
            0 <= y < map_height(*snapshot) && 0 <= x < map_width(*snapshot) ==> #[trigger] lines@[3
                + y]@[x] == cell_char(*snapshot, at(x, y)),
{
    let mut lines: Vec<String> = Vec::new();
    let mut tick_line = String::from_str("Tick: ");
    let tick = decimal_string(snapshot.tick);
    tick_line.append(tick.as_str());
    lines.push(tick_line);
    let mut stock_line = String::from_str("Energie: ");
    let energy = decimal_string(snapshot.collected_energy as u64);
    stock_line.append(energy.as_str());
    stock_line.append(" | Cristaux: ");
    let crystals = decimal_string(snapshot.collected_crystals as u64);
    stock_line.append(crystals.as_str());
    lines.push(stock_line);
    lines.push(String::new());
    let map = map_lines(snapshot);
    let mut i: usize = 0;
    while i < map.len()
        invariant
            i <= map@.len(),
            lines@.len() == 3 + i,
            lines@[0]@ == "Tick: "@ + decimal_digits(snapshot.tick as nat),
            lines@[1]@ == "Energie: "@ + decimal_digits(snapshot.collected_energy as nat)
                + " | Cristaux: "@ + decimal_digits(snapshot.collected_crystals as nat),
            lines@[2]@ == Seq::<char>::empty(),
            forall|r: int| 0 <= r < i ==> #[trigger] lines@[3 + r] == map@[r],
        decreases map@.len() - i,
    {
        lines.push(map[i].clone());
        i = i + 1;
    }
    lines
}

/// The folded width and height cover every position folded in.
proof fn lemma_fold_covers(w: int, h: int, ps: Seq<Position>)
    ensures
        w <= fold_width(w, ps),
        h <= fold_height(h, ps),
        forall|i: int|
            0 <= i < ps.len() ==> (#[trigger] ps[i]).x < fold_width(w, ps) && ps[i].y < fold_height(
                h,
                ps,
            ),
    decreases ps.len(),
{
    if ps.len() > 0 {
        lemma_fold_covers(w, h, ps.drop_last());
        assert forall|i: int| 0 <= i < ps.len() implies (#[trigger] ps[i]).x < fold_width(w, ps)
            && ps[i].y < fold_height(h, ps) by {
            if i < ps.len() - 1 {
                assert(ps[i] == ps.drop_last()[i]);
            }
        }
    }
}

/// The map is large enough for what it shows: the base and every obstacle,
/// deposit and robot at non-negative coordinates fall inside it.
pub proof fn law_map_covers_what_it_draws(s: WorldSnapshot)
    ensures
        map_width(s) >= 1,
        map_height(s) >= 1,
        s.base_position.x >= 0 ==> s.base_position.x < map_width(s),
        s.base_position.y >= 0 ==> s.base_position.y < map_height(s),
        forall|i: int|
            0 <= i < drawn_positions(s).len() ==> (#[trigger] drawn_positions(s)[i]).x < map_width(s)
                && drawn_positions(s)[i].y < map_height(s),
{
    lemma_fold_covers(s.base_position.x + 1, s.base_position.y + 1, drawn_positions(s));
}

/// A robot listed at `p` decides what is drawn there, whatever lies below.
proof fn lemma_robot_on_top(rs: Seq<RobotSnapshot>, p: Position, below: char, i: int)
    requires
        0 <= i < rs.len(),
        rs[i].position == p,
    ensures
        robot_layer(rs, p, below) == 'S' || robot_layer(rs, p, below) == 'R',
    decreases rs.len(),
{
    if rs.last().position != p {
        assert(rs.drop_last()[i] == rs[i]);
        lemma_robot_on_top(rs.drop_last(), p, below, i);
    }
}

/// A deposit listed at `p` with no robot there decides what is drawn there.
proof fn lemma_resource_on_top(rs: Seq<ResourceNode>, p: Position, below: char, i: int)
    requires
        0 <= i < rs.len(),
        rs[i].position == p,
    ensures
        resource_layer(rs, p, below) == 'E' || resource_layer(rs, p, below) == 'C',
    decreases rs.len(),
{
    if rs.last().position != p {
        assert(rs.drop_last()[i] == rs[i]);
        lemma_resource_on_top(rs.drop_last(), p, below, i);
    }
}

/// No robot listed at `p` leaves what lies below it.
proof fn lemma_no_robot(rs: Seq<RobotSnapshot>, p: Position, below: char)
    requires
        forall|i: int| 0 <= i < rs.len() ==> (#[trigger] rs[i]).position != p,
    ensures
        robot_layer(rs, p, below) == below,
    decreases rs.len(),
{
    if rs.len() > 0 {
        assert(rs.last() == rs[rs.len() - 1]);
        assert forall|i: int| 0 <= i < rs.drop_last().len() implies (#[trigger] rs.drop_last()[i]).position
            != p by {
            assert(rs.drop_last()[i] == rs[i]);
        }
        lemma_no_robot(rs.drop_last(), p, below);
    }
}

/// The layers of the map: a robot is drawn above everything else; with no
/// robot, a deposit is drawn above obstacles and the base; with neither, an
/// obstacle above the base; the base's tile shows `B` when nothing else is
/// there.
pub proof fn law_map_layers(s: WorldSnapshot, p: Position)
    ensures
        (exists|i: int| 0 <= i < s.robots@.len() && (#[trigger] s.robots@[i]).position == p) ==> (
        cell_char(s, p) == 'S' || cell_char(s, p) == 'R'),
        (forall|i: int| 0 <= i < s.robots@.len() ==> (#[trigger] s.robots@[i]).position != p) ==> {
            &&& (exists|j: int| 0 <= j < s.resources@.len() && (#[trigger] s.resources@[j]).position == p)
                ==> (cell_char(s, p) == 'E' || cell_char(s, p) == 'C')
            &&& (forall|j: int| 0 <= j < s.resources@.len() ==> (#[trigger] s.resources@[j]).position != p)
                ==> cell_char(s, p) == obstacle_layer(s.obstacles@, p, base_layer(s, p))
        },
{
    let below = resource_layer(s.resources@, p, obstacle_layer(s.obstacles@, p, base_layer(s, p)));
    if exists|i: int| 0 <= i < s.robots@.len() && (#[trigger] s.robots@[i]).position == p {
        let i = choose|i: int| 0 <= i < s.robots@.len() && (#[trigger] s.robots@[i]).position == p;
        lemma_robot_on_top(s.robots@, p, below, i);
    }
    if forall|i: int| 0 <= i < s.robots@.len() ==> (#[trigger] s.robots@[i]).position != p {
        lemma_no_robot(s.robots@, p, below);
        if exists|j: int| 0 <= j < s.resources@.len() && (#[trigger] s.resources@[j]).position == p {
            let j = choose|j: int| 0 <= j < s.resources@.len() && (#[trigger] s.resources@[j]).position
                == p;
            lemma_resource_on_top(s.resources@, p, obstacle_layer(s.obstacles@, p, base_layer(s, p)), j);
        }
        if forall|j: int| 0 <= j < s.resources@.len() ==> (#[trigger] s.resources@[j]).position != p {
            lemma_no_resource(s.resources@, p, obstacle_layer(s.obstacles@, p, base_layer(s, p)));
        }
    }
}

/// No deposit listed at `p` leaves what lies below it.
proof fn lemma_no_resource(rs: Seq<ResourceNode>, p: Position, below: char)
    requires
        forall|i: int| 0 <= i < rs.len() ==> (#[trigger] rs[i]).position != p,
    ensures
        resource_layer(rs, p, below) == below,
    decreases rs.len(),
{
    if rs.len() > 0 {
        assert(rs.last() == rs[rs.len() - 1]);
        assert forall|i: int| 0 <= i < rs.drop_last().len() implies (#[trigger] rs.drop_last()[i]).position
            != p by {
            assert(rs.drop_last()[i] == rs[i]);
        }
        lemma_no_resource(rs.drop_last(), p, below);
    }
}

/// Hooks the module into the rest of the crate.
pub fn register() {
}

} // verus!
