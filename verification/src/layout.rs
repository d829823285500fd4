//! Where the parts of the popup are on the screen.
use crate::popup;
use crate::popup::Rect;
use ratatui::layout as tui;
use vstd::prelude::*;

verus! {

/// The way along which an area is split.
#[derive(Clone, Copy, Debug, PartialEq, Eq, Structural)]
pub enum Direction {
    Horizontal,
    Vertical,
}

/// How much of an area a part of it is to get.
#[derive(Clone, Copy, Debug, PartialEq, Eq, Structural)]
pub enum Constraint {
    Length(u16),
    Min(u16),
    Percentage(u16),
}

/// The sum of two numbers, or the largest number where it is too large.
pub open spec fn capped_sum(a: u16, b: u16) -> int {
    if a + b > u16::MAX {
        u16::MAX as int
    } else {
        a + b
    }
}

/// The difference of two numbers, or zero where it is negative.
pub open spec fn capped_difference(a: int, b: int) -> int {
    if a < b {
        0
    } else {
        a - b
    }
}

/// Whether an area is a part of another that was split along `direction`: it is as wide as the
/// other across that way and lies between the other's ends along it.
pub open spec fn is_part(area: Rect, direction: Direction, part: Rect) -> bool {
    match direction {
        Direction::Horizontal => {
            &&& part.y == area.y
            &&& part.height == area.height
            &&& area.x <= part.x
            &&& part.x + part.width <= capped_sum(area.x, area.width)
        },
        Direction::Vertical => {
            &&& part.x == area.x
            &&& part.width == area.width
            &&& area.y <= part.y
            &&& part.y + part.height <= capped_sum(area.y, area.height)
        },
    }
}

/// Whether an area ends, along `direction`, where another starts or before it.
pub open spec fn is_before(direction: Direction, a: Rect, b: Rect) -> bool {
    match direction {
        Direction::Horizontal => a.x + a.width <= b.x,
        Direction::Vertical => a.y + a.height <= b.y,
    }
}

/// The cells of an area along `direction`, as far as the coordinates go.
pub open spec fn extent_of(direction: Direction, area: Rect) -> int {
    match direction {
        Direction::Horizontal => capped_sum(area.x, area.width) - area.x,
        Direction::Vertical => capped_sum(area.y, area.height) - area.y,
    }
}

/// The cells that a constraint asks for, where it gives a number of them.
pub open spec fn cells(constraint: Constraint) -> int {
    match constraint {
        Constraint::Length(n) => n as int,
        Constraint::Min(n) => n as int,
        Constraint::Percentage(_) => 0,
    }
}

/// The cells that several constraints ask for together.
pub open spec fn cells_of(constraints: Seq<Constraint>) -> int
    decreases constraints.len(),
{
    if constraints.len() == 0 {
        0
    } else {
        cells_of(constraints.drop_last()) + cells(constraints.last())
    }
}

/// The smaller of two numbers.
pub open spec fn least(a: int, b: int) -> int {
    if a <= b {
        a
    } else {
        b
    }
}

/// The cells of several areas along `direction`.
pub open spec fn extents_of(direction: Direction, areas: Seq<Rect>) -> Seq<int> {
    areas.map_values(|area: Rect| extent_of(direction, area))
}

/// The sum of several numbers.
pub open spec fn total(sizes: Seq<int>) -> int
    decreases sizes.len(),
{
    if sizes.len() == 0 {
        0
    } else {
        total(sizes.drop_last()) + sizes.last()
    }
}

/// Whether the constraints are lengths and, at `k`, one least size.
pub open spec fn are_lengths_around(constraints: Seq<Constraint>, k: int) -> bool {
    &&& 0 <= k < constraints.len()
    &&& constraints[k] is Min
    &&& forall|i: int|
        0 <= i < constraints.len() && i != k ==> (#[trigger] constraints[i]) is Length
}

/// Whether these are the sizes that lengths and, at `k`, one least size get of `extent` cells, which
/// they use up. The least size comes before the lengths: it gets its cells as far as there are so
/// many, and all that the lengths leave. A length never gets more than its cells, and gets all of
/// them where there is room for everything.
pub open spec fn are_shares(constraints: Seq<Constraint>, k: int, sizes: Seq<int>, extent: int) -> bool {
    &&& sizes.len() == constraints.len()
    &&& total(sizes) == extent
    &&& sizes[k] == (if cells_of(constraints) <= extent {
        cells(constraints[k]) + extent - cells_of(constraints)
    } else {
        least(cells(constraints[k]), extent)
    })
    &&& forall|i: int|
        0 <= i < sizes.len() && i != k ==> 0 <= #[trigger] sizes[i] <= cells(constraints[i]) && (
        cells_of(constraints) <= extent ==> sizes[i] == cells(constraints[i]))
}

/// Whether the constraints are a percentage and then either the rest of the hundred or a least size.
pub open spec fn is_percentage_first(constraints: Seq<Constraint>) -> bool {
    &&& constraints.len() == 2
    &&& constraints[0] matches Constraint::Percentage(p) && p <= 100 && (match constraints[1] {
        Constraint::Percentage(q) => p + q == 100,
        Constraint::Min(_) => true,
        Constraint::Length(_) => false,
    })
}

/// A percentage of `extent` cells, rounded to the nearest number of cells, and up where two are
/// equally near.
pub open spec fn percentage_of(percentage: int, extent: int) -> int {
    (percentage * extent + 50) / 100
}

/// The cells that a percentage gets of `extent` cells before another constraint: those that it asks
/// for, or what a least size leaves that takes more than the rest.
pub open spec fn percentage_share(percentage: int, second: Constraint, extent: int) -> int {
    match second {
        Constraint::Min(n) => if 100 * n <= (100 - percentage) * extent {
            percentage_of(percentage, extent)
        } else {
            extent - least(n as int, extent)
        },
        _ => percentage_of(percentage, extent),
    }
}

/// `ratatui::layout::Layout::split`, without a margin: the parts of an area, one for each
/// constraint, which lie inside it and one behind the other. Where the constraints are lengths
/// and one least size, the least size comes first, then the lengths, and what is left over goes to
/// the least size. Where they are a percentage and then the rest of the hundred or a least size,
/// the first part gets that percentage, or what the least size leaves, and the second the rest.
/// Left unsaid is how several lengths share too few cells, and what other constraints get: there
/// the constraints leave a choice, and it goes by the order in which the solver behind this walks
/// hash maps that each process seeds anew.
#[verifier::external_body]
fn split(area: Rect, direction: Direction, constraints: &Vec<Constraint>) -> (r: Vec<Rect>)
    ensures
        r@.len() == constraints@.len(),
        forall|i: int| 0 <= i < r@.len() ==> is_part(area, direction, #[trigger] r@[i]),
        forall|i: int, j: int|
            0 <= i < j < r@.len() ==> is_before(direction, #[trigger] r@[i], #[trigger] r@[j]),
        forall|k: int| #[trigger]
            are_lengths_around(constraints@, k) ==> are_shares(
                constraints@,
                k,
                extents_of(direction, r@),
                extent_of(direction, area),
            ),
        is_percentage_first(constraints@) ==> {
            &&& extent_of(direction, r@[0]) == percentage_share(
                constraints@[0]->Percentage_0 as int,
                constraints@[1],
                extent_of(direction, area),
            )
            &&& extent_of(direction, r@[0]) + extent_of(direction, r@[1]) == extent_of(
                direction,
                area,
            )
        },
{
    let wanted = constraints.iter().map(|c| match *c {
        Constraint::Length(n) => tui::Constraint::Length(n),
        Constraint::Min(n) => tui::Constraint::Min(n),
        Constraint::Percentage(n) => tui::Constraint::Percentage(n),
    });
    let way = match direction {
        Direction::Horizontal => tui::Direction::Horizontal,
        Direction::Vertical => tui::Direction::Vertical,
    };
    let whole = tui::Rect { x: area.x, y: area.y, width: area.width, height: area.height };
    let parts = tui::Layout::new(way, wanted).split(whole);
    parts.iter().map(|p| Rect { x: p.x, y: p.y, width: p.width, height: p.height }).collect()
}

/// The area inside a border that takes one cell on each side.
pub open spec fn inside_border(area: Rect) -> Rect {
    let right = capped_sum(area.x, area.width);
    let bottom = capped_sum(area.y, area.height);
    Rect {
        x: if capped_sum(area.x, 1) < right {
            capped_sum(area.x, 1) as u16
        } else {
            right as u16
        },
        y: if capped_sum(area.y, 1) < bottom {
            capped_sum(area.y, 1) as u16
        } else {
            bottom as u16
        },
        width: capped_difference(area.width as int, 2) as u16,
        height: capped_difference(area.height as int, 2) as u16,
    }
}

/// `ratatui::widgets::Block::inner` of a block that has all four borders and no padding: the area
/// that the borders leave.
#[verifier::external_body]
fn inner(area: Rect) -> (r: Rect)
    ensures
        r == inside_border(area),
{
    let whole = tui::Rect { x: area.x, y: area.y, width: area.width, height: area.height };
    let block = ratatui::widgets::Block::default().borders(ratatui::widgets::Borders::ALL);
    let r = block.inner(whole);
    Rect { x: r.x, y: r.y, width: r.width, height: r.height }
}

/// The parts of the popup.
#[derive(Clone, Copy, Debug, PartialEq, Eq, Structural)]
pub struct Areas {
    pub header: Rect,
    pub body: Rect,
    pub help: Rect,
    /// What is left of the preview.
    pub column: Rect,
    pub session_box: Rect,
    pub session_list: Rect,
    pub session_field: Rect,
    pub dir_box: Rect,
    pub dir_list: Rect,
    pub dir_field: Rect,
    pub preview_box: Rect,
    pub preview_head: Rect,
    pub preview_body: Rect,
}

/// The area that the preview writes to: two cells from the sides of its box and one from its top
/// and bottom. A box at the very end of the coordinates wraps around.
pub open spec fn inside_preview(area: Rect) -> Rect {
    Rect {
        x: ((area.x + 2) % 0x1_0000) as u16,
        y: ((area.y + 1) % 0x1_0000) as u16,
        width: capped_difference(area.width as int, 4) as u16,
        height: capped_difference(area.height as int, 2) as u16,
    }
}

/// The area that the preview writes to.
pub fn preview_area(area: Rect) -> (r: Rect)
    ensures
        r == inside_preview(area),
{
    Rect {
        x: area.x.wrapping_add(2),
        y: area.y.wrapping_add(1),
        width: if area.width < 4 {
            0
        } else {
            area.width - 4
        },
        height: if area.height < 2 {
            0
        } else {
            area.height - 2
        },
    }
}

/// Whether two areas are the parts of another, the first of them before the second.
pub open spec fn are_parts(area: Rect, direction: Direction, a: Rect, b: Rect) -> bool {
    &&& is_part(area, direction, a)
    &&& is_part(area, direction, b)
    &&& is_before(direction, a, b)
}

/// Whether these are the parts of the popup on a screen: from top to bottom a header, the body and
/// a line of help; in the body, from left to right, a column and the preview; in the column the
/// sessions above the directories; and in each box a list above a field.
pub open spec fn is_arrangement(screen: Rect, a: Areas) -> bool {
    &&& are_parts(screen, Direction::Vertical, a.header, a.body)
    &&& are_parts(screen, Direction::Vertical, a.body, a.help)
    &&& are_parts(a.body, Direction::Horizontal, a.column, a.preview_box)
    &&& are_parts(a.column, Direction::Vertical, a.session_box, a.dir_box)
    &&& are_parts(
        inside_border(a.session_box),
        Direction::Vertical,
        a.session_list,
        a.session_field,
    )
    &&& are_parts(inside_border(a.dir_box), Direction::Vertical, a.dir_list, a.dir_field)
    &&& are_parts(
        inside_preview(a.preview_box),
        Direction::Vertical,
        a.preview_head,
        a.preview_body,
    )
}

/// The rows that a part gets of `extent` rows when it is to have `rows` of them and more, beside
/// parts that are to have `others` rows.
pub open spec fn room_of(rows: int, others: int, extent: int) -> int {
    if rows + others <= extent {
        extent - others
    } else {
        least(rows, extent)
    }
}

/// Whether the parts of the popup have the sizes that they are to have. Where there is too little
/// room the body, the directory box, the lists and the lines of the preview come first. Only how
/// the header and the help share what the body leaves of a screen that is too low for them is not
/// said.
pub open spec fn is_shared_out(screen: Rect, a: Areas) -> bool {
    let down = Direction::Vertical;
    let across = Direction::Horizontal;
    let column = extent_of(down, a.column);
    let session_inside = extent_of(down, inside_border(a.session_box));
    let dir_inside = extent_of(down, inside_border(a.dir_box));
    let preview_inside = extent_of(down, inside_preview(a.preview_box));
    &&& a.body.height == room_of(8, 3, extent_of(down, screen))
    &&& a.header.height + a.body.height + a.help.height == extent_of(down, screen)
    &&& a.header.height <= 2
    &&& a.help.height <= 1
    &&& a.column.width == percentage_of(42, extent_of(across, a.body))
    &&& a.column.width + a.preview_box.width == extent_of(across, a.body)
    &&& a.session_box.height == (if column >= 16 {
        percentage_of(50, column)
    } else {
        column - least(8, column)
    })
    &&& a.session_box.height + a.dir_box.height == column
    &&& a.session_list.height == room_of(1, 2, session_inside)
    &&& a.session_list.height + a.session_field.height == session_inside
    &&& a.dir_list.height == room_of(1, 1, dir_inside)
    &&& a.dir_list.height + a.dir_field.height == dir_inside
    &&& a.preview_body.height == room_of(1, 5, preview_inside)
    &&& a.preview_head.height + a.preview_body.height == preview_inside
}

/// Two constraints.
fn pair(first: Constraint, second: Constraint) -> (r: Vec<Constraint>)
    ensures
        r@ == seq![first, second],
{
    let mut r: Vec<Constraint> = Vec::new();
    r.push(first);
    r.push(second);
    assert(r@ =~= seq![first, second]);
    r
}

/// The two parts of an area, of which the first gets a percentage.
fn split_by_percentage(area: Rect, direction: Direction, percentage: u16, second: Constraint) -> (r:
    (Rect, Rect))
    ensures
        are_parts(area, direction, r.0, r.1),
        is_percentage_first(seq![Constraint::Percentage(percentage), second]) ==> {
            &&& extent_of(direction, r.0) == percentage_share(
                percentage as int,
                second,
                extent_of(direction, area),
            )
            &&& extent_of(direction, r.0) + extent_of(direction, r.1) == extent_of(direction, area)
        },
{
    let parts: Vec<Rect> = split(
        area,
        direction,
        &pair(Constraint::Percentage(percentage), second),
    );
    (parts[0], parts[1])
}

/// The two parts of an area from top to bottom, of which the first gets `rows` rows and more, and
/// the second `length` rows.
fn split_above(area: Rect, rows: u16, length: u16) -> (r: (Rect, Rect))
    ensures
        are_parts(area, Direction::Vertical, r.0, r.1),
        r.0.height == room_of(rows as int, length as int, extent_of(Direction::Vertical, area)),
        r.0.height + r.1.height == extent_of(Direction::Vertical, area),
{
    let constraints: Vec<Constraint> = pair(Constraint::Min(rows), Constraint::Length(length));
    let parts: Vec<Rect> = split(area, Direction::Vertical, &constraints);
    proof {
        lemma_two(constraints@, extents_of(Direction::Vertical, parts@));
        assert(are_lengths_around(constraints@, 0));
    }
    (parts[0], parts[1])
}

/// The two parts of an area from top to bottom, of which the first gets `length` rows, and the
/// second `rows` rows and more.
fn split_below(area: Rect, length: u16, rows: u16) -> (r: (Rect, Rect))
    ensures
        are_parts(area, Direction::Vertical, r.0, r.1),
        r.1.height == room_of(rows as int, length as int, extent_of(Direction::Vertical, area)),
        r.0.height + r.1.height == extent_of(Direction::Vertical, area),
{
    let constraints: Vec<Constraint> = pair(Constraint::Length(length), Constraint::Min(rows));
    let parts: Vec<Rect> = split(area, Direction::Vertical, &constraints);
    proof {
        lemma_two(constraints@, extents_of(Direction::Vertical, parts@));
        assert(are_lengths_around(constraints@, 1));
    }
    (parts[0], parts[1])
}

/// What two constraints ask for together, and what two parts have together.
proof fn lemma_two(constraints: Seq<Constraint>, sizes: Seq<int>)
    requires
        constraints.len() == 2,
        sizes.len() == 2,
    ensures
        cells_of(constraints) == cells(constraints[0]) + cells(constraints[1]),
        total(sizes) == sizes[0] + sizes[1],
{
    reveal_with_fuel(cells_of, 3);
    reveal_with_fuel(total, 3);
    assert(constraints.drop_last().drop_last().len() == 0);
    assert(sizes.drop_last().drop_last().len() == 0);
}

/// Shares the screen out among the parts of the popup.
pub fn arrange(screen: Rect) -> (r: Areas)
    ensures
        is_arrangement(screen, r),
        is_shared_out(screen, r),
{
    let mut rows: Vec<Constraint> = Vec::new();
    rows.push(Constraint::Length(2));
    rows.push(Constraint::Min(8));
    rows.push(Constraint::Length(1));
    let outer: Vec<Rect> = split(screen, Direction::Vertical, &rows);
    proof {
        let sizes = extents_of(Direction::Vertical, outer@);
        lemma_two(rows@.drop_last(), sizes.drop_last());
        assert(are_lengths_around(rows@, 1));
    }
    let header: Rect = outer[0];
    let body: Rect = outer[1];
    let help: Rect = outer[2];
    let (column, preview_box) = split_by_percentage(
        body,
        Direction::Horizontal,
        42,
        Constraint::Percentage(58),
    );
    let (session_box, dir_box) = split_by_percentage(
        column,
        Direction::Vertical,
        50,
        Constraint::Min(8),
    );
    let (dir_list, dir_field) = split_above(inner(dir_box), 1, 1);
    let (session_list, session_field) = split_above(inner(session_box), 1, 2);
    let (preview_head, preview_body) = split_below(preview_area(preview_box), 5, 1);
    Areas {
        header,
        body,
        help,
        column,
        session_box,
        session_list,
        session_field,
        dir_box,
        dir_list,
        dir_field,
        preview_box,
        preview_head,
        preview_body,
    }
}

/// Whether an area lies inside another.
pub open spec fn lies_in(area: Rect, part: Rect) -> bool {
    &&& area.x <= part.x
    &&& part.x + part.width <= area.x + area.width
    &&& area.y <= part.y
    &&& part.y + part.height <= area.y + area.height
}

/// The popup stays on the screen: so does each of its parts, and those of the preview wherever its
/// box leaves them room to start in.
pub proof fn lemma_popup_stays_on_screen(screen: Rect, a: Areas)
    requires
        is_arrangement(screen, a),
    ensures
        lies_in(screen, a.header),
        lies_in(screen, a.help),
        lies_in(screen, a.session_box),
        lies_in(a.session_box, a.session_list),
        lies_in(a.session_box, a.session_field),
        lies_in(screen, a.dir_box),
        lies_in(a.dir_box, a.dir_list),
        lies_in(a.dir_box, a.dir_field),
        lies_in(screen, a.preview_box),
        a.preview_box.width >= 2 && a.preview_box.height >= 1 ==> lies_in(
            a.preview_box,
            a.preview_head,
        ) && lies_in(a.preview_box, a.preview_body),
{
}

/// A cell belongs to one list at most: the sessions are above the directories, and both are left of
/// the preview.
pub proof fn lemma_lists_are_apart(screen: Rect, a: Areas, column: u16, row: u16)
    requires
        is_arrangement(screen, a),
    ensures
        !(popup::is_inside(a.session_list, column, row) && popup::is_inside(
            a.dir_list,
            column,
            row,
        )),
        !(popup::is_inside(a.session_list, column, row) && popup::is_inside(
            a.preview_box,
            column,
            row,
        )),
        !(popup::is_inside(a.dir_list, column, row) && popup::is_inside(
            a.preview_box,
            column,
            row,
        )),
{
}

} // verus!
