//! Laws of how the popup is divided: what each box gets of the screen.
use crate::layout;
use crate::layout::Areas;
use crate::popup;
use crate::popup::Rect;
use vstd::prelude::*;

verus! {

/// Whether an area ends where cells can still be counted.
pub open spec fn can_be_counted(area: Rect) -> bool {
    area.x + area.width <= 0xffff && area.y + area.height <= 0xffff
}

/// On a screen of eleven rows or more, the header has two, the help has one, and the body all others.
/// All are as wide as the screen, and the two columns of the body as high as the body.
pub proof fn lemma_body_gets_the_rest(screen: Rect, a: Areas)
    requires
        layout::is_arrangement(screen, a),
        layout::is_shared_out(screen, a),
        can_be_counted(screen),
    ensures
        screen.height >= 11 ==> a.header.height == 2 && a.help.height == 1 && a.body.height
            == screen.height - 3,
        screen.height <= 8 ==> a.body.height == screen.height,
        8 <= screen.height < 11 ==> a.body.height == 8,
        a.header.width == screen.width,
        a.body.width == screen.width,
        a.help.width == screen.width,
        a.column.height == a.body.height,
        a.preview_box.height == a.body.height,
{
}

/// The lists get forty-two cells of a hundred in width, to the nearest, and the preview the others.
pub proof fn lemma_preview_is_the_wider(screen: Rect, a: Areas)
    requires
        layout::is_arrangement(screen, a),
        layout::is_shared_out(screen, a),
        can_be_counted(screen),
    ensures
        -50 <= 100 * a.column.width - 42 * screen.width <= 50,
        a.column.width + a.preview_box.width == screen.width,
        a.session_box.width == a.column.width,
        a.dir_box.width == a.column.width,
{
}

/// The two lists share the height of their column evenly, an odd row going to the sessions; where it is
/// small, the directories keep eight rows and the sessions get what is left.
pub proof fn lemma_lists_share_the_column(screen: Rect, a: Areas)
    requires
        layout::is_arrangement(screen, a),
        layout::is_shared_out(screen, a),
        can_be_counted(screen),
    ensures
        a.session_box.height + a.dir_box.height == a.column.height,
        a.column.height >= 16 ==> a.dir_box.height <= a.session_box.height <= a.dir_box.height + 1,
        8 <= a.column.height < 16 ==> a.dir_box.height == 8,
        a.column.height < 8 ==> a.session_box.height == 0,
{
}

/// Inside each box there is a border all round. Below the sessions two rows are kept for their field,
/// below the directories one, and above the preview five for its head, where there is room.
pub proof fn lemma_rows_inside_the_boxes(screen: Rect, a: Areas)
    requires
        layout::is_arrangement(screen, a),
        layout::is_shared_out(screen, a),
        can_be_counted(screen),
    ensures
        a.session_box.height >= 5 ==> a.session_field.height == 2 && a.session_list.height
            == a.session_box.height - 4,
        a.dir_box.height >= 4 ==> a.dir_field.height == 1 && a.dir_list.height == a.dir_box.height
            - 3,
        a.preview_box.height >= 8 ==> a.preview_head.height == 5 && a.preview_body.height
            == a.preview_box.height - 7,
        a.session_box.width >= 2 ==> a.session_list.width == a.session_box.width - 2,
        a.dir_box.width >= 2 ==> a.dir_list.width == a.dir_box.width - 2,
        a.preview_box.width >= 4 ==> a.preview_body.width == a.preview_box.width - 4,
        a.session_box.width >= 2 && a.session_box.height >= 2 ==> a.session_list.x
            == a.session_box.x + 1 && a.session_list.y >= a.session_box.y + 1,
        a.dir_box.width >= 2 && a.dir_box.height >= 2 ==> a.dir_list.x == a.dir_box.x + 1
            && a.dir_list.y >= a.dir_box.y + 1,
        a.preview_box.width >= 4 && a.preview_box.height >= 2 ==> a.preview_body.x
            == a.preview_box.x + 2 && a.preview_head.y >= a.preview_box.y + 1,
{
    layout::lemma_popup_stays_on_screen(screen, a);
}

/// A cell is inside an area exactly where it is fewer columns to the right of its corner than it is
/// wide, and fewer rows below than it is high.
pub proof fn lemma_cells_of_an_area(area: Rect, right: u16, down: u16)
    requires
        area.x + right <= 0xffff,
        area.y + down <= 0xffff,
    ensures
        popup::is_inside(area, (area.x + right) as u16, (area.y + down) as u16) <==> right
            < area.width && down < area.height,
        forall|column: u16, row: u16|
            column < area.x || row < area.y ==> !#[trigger] popup::is_inside(area, column, row),
{
}

} // verus!
