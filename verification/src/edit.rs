use vstd::prelude::*;

use crate::life::pos::{area_positions, in_i16, Pos};
use crate::life::transform::{copy_rows, paste_pairs, paste_rows, pops_fold};
use crate::life::algo::basic::max_dim;
use crate::life::{apply_writes, cell_of, packed, Cell, Life, LifeAlgoSelect};
use crate::ui::EditBar;

verus! {

/// The corner of the box spanned by `a` and `b` with the smaller coordinates.
pub open spec fn low_corner(a: Pos, b: Pos) -> Pos {
    Pos { x: if a.x <= b.x { a.x } else { b.x }, y: if a.y <= b.y { a.y } else { b.y } }
}

/// The corner of the box spanned by `a` and `b` with the larger coordinates.
pub open spec fn high_corner(a: Pos, b: Pos) -> Pos {
    Pos { x: if a.x <= b.x { b.x } else { a.x }, y: if a.y <= b.y { b.y } else { a.y } }
}

/// The extent from `low_corner` to `high_corner` (the high row and column excluded).
pub open spec fn span(a: Pos, b: Pos) -> Pos {
    Pos {
        x: (high_corner(a, b).x - low_corner(a, b).x) as i16,
        y: (high_corner(a, b).y - low_corner(a, b).y) as i16,
    }
}

/// Writing `cell` at every position of the area, row by row.
pub open spec fn area_writes(start: Pos, area: Pos, cell: Cell) -> Seq<(Pos, Cell)> {
    area_positions(start, area).map_values(|p: Pos| (p, cell))
}

/// What pasting `src` at `pos` makes of `life`: its rows and its populations.
pub open spec fn pasted(life: Life, src: Life, pos: Pos) -> (Seq<Seq<Cell>>, Seq<i16>) {
    (
        paste_rows(life.rows(), src.rows(), pos, 0),
        pops_fold(life.pops_view(), paste_pairs(life.rows(), src.rows(), pos, 0, src.height())),
    )
}

/// What `src` needs to be pasted at `pos` into `life`.
pub open spec fn pastable(life: Life, src: Life, pos: Pos) -> bool {
    &&& src.wf()
    &&& src.width() > 0 && src.height() > 0 ==> in_i16(pos.x + src.width() - 1) && in_i16(pos.y + src.height() - 1)
}

fn fill_writes(start: Pos, area: Pos, cell: Cell) -> (v: Vec<(Pos, Cell)>)
    requires
        area.x >= 0,
        area.y >= 0,
        in_i16(start.x + area.x),
        in_i16(start.y + area.y),
    ensures
        v@ == area_writes(start, area, cell),
{
    let ps = start.iter(area);
    let mut v: Vec<(Pos, Cell)> = Vec::new();
    let mut i: usize = 0;
    while i < ps.len()
        invariant
            i <= ps.len(),
            ps@ == area_positions(start, area),
            v@ == ps@.take(i as int).map_values(|p: Pos| (p, cell)),
        decreases ps.len() - i,
    {
        v.push((ps[i], cell));
        i = i + 1;
        proof {
            assert(ps@.take(i as int).drop_last() =~= ps@.take(i - 1));
            assert(v@ =~= ps@.take(i as int).map_values(|p: Pos| (p, cell)));
        }
    }
    proof {
        assert(ps@.take(ps@.len() as int) =~= ps@);
    }
    v
}

/// Apply the editor tool `edit_select` to the box between `start_pos` and `end_pos` (its
/// high row and column excluded): `Fill` makes its cells live and `Clear` dead (faction
/// 0); `Copy` puts a basic grid holding the box's cells on the clipboard, unless the box
/// is empty; `Paste` and `Pattern` paste the clipboard or the selected pattern, if there
/// is one, at `start_pos`.
pub fn do_edit_action(
    life: &mut Life,
    clipboard: &mut Option<Life>,
    edit_select: EditBar,
    selected: &Option<Life>,
    start_pos: Pos,
    end_pos: Pos,
)
    requires
        old(life).wf(),
        start_pos.x >= 0,
        start_pos.y >= 0,
        end_pos.x >= 0,
        end_pos.y >= 0,
        edit_select == EditBar::Copy ==> span(start_pos, end_pos).x <= max_dim() && span(start_pos, end_pos).y
            <= max_dim(),
        edit_select == EditBar::Paste ==> (*old(clipboard) matches Some(c) ==> pastable(*old(life), c, start_pos)),
        edit_select == EditBar::Pattern ==> (*selected matches Some(c) ==> pastable(*old(life), c, start_pos)),
    ensures
        final(life).wf(),
        final(life).kind() == old(life).kind(),
        final(life).spec_size() == old(life).spec_size(),
        final(life).spec_rule() == old(life).spec_rule(),
        final(life).spec_generation() == old(life).spec_generation(),
        edit_select == EditBar::Fill ==> (final(life).rows(), final(life).pops_view()) == apply_writes(
            (old(life).rows(), old(life).pops_view()),
            area_writes(low_corner(start_pos, end_pos), span(start_pos, end_pos), cell_of(packed(1, 0))),
        ) && *final(clipboard) == *old(clipboard),
        edit_select == EditBar::Clear ==> (final(life).rows(), final(life).pops_view()) == apply_writes(
            (old(life).rows(), old(life).pops_view()),
            area_writes(low_corner(start_pos, end_pos), span(start_pos, end_pos), cell_of(packed(0, 0))),
        ) && *final(clipboard) == *old(clipboard),
        edit_select == EditBar::Copy ==> *final(life) == *old(life) && (if span(start_pos, end_pos).x == 0 || span(
            start_pos,
            end_pos,
        ).y == 0 {
            *final(clipboard) == *old(clipboard)
        } else {
            *final(clipboard) matches Some(c) && {
                &&& c.wf()
                &&& c.kind() == LifeAlgoSelect::Basic
                &&& c.spec_size() == span(start_pos, end_pos)
                &&& c.spec_rule() == old(life).spec_rule()
                &&& c.rows() == copy_rows(old(life).rows(), low_corner(start_pos, end_pos), span(start_pos, end_pos))
                &&& c.counted()
            }
        }),
        edit_select == EditBar::Paste ==> *final(clipboard) == *old(clipboard) && match *old(clipboard) {
            Some(c) => (final(life).rows(), final(life).pops_view()) == pasted(*old(life), c, start_pos),
            None => *final(life) == *old(life),
        },
        edit_select == EditBar::Pattern ==> *final(clipboard) == *old(clipboard) && match *selected {
            Some(c) => (final(life).rows(), final(life).pops_view()) == pasted(*old(life), c, start_pos),
            None => *final(life) == *old(life),
        },
{
    let min_pos = Pos {
        x: if start_pos.x <= end_pos.x { start_pos.x } else { end_pos.x },
        y: if start_pos.y <= end_pos.y { start_pos.y } else { end_pos.y },
    };
    let max_pos = Pos {
        x: if start_pos.x <= end_pos.x { end_pos.x } else { start_pos.x },
        y: if start_pos.y <= end_pos.y { end_pos.y } else { start_pos.y },
    };
    let area = Pos { x: max_pos.x - min_pos.x, y: max_pos.y - min_pos.y };
    match edit_select {
        EditBar::Fill => {
            let ws = fill_writes(min_pos, area, Cell::new(1, 0));
            proof {
                crate::life::lemma_packed_faction(1, 0);
                crate::life::pos::lemma_area_nonneg(min_pos, area);
                assert forall|i: int| 0 <= i < ws@.len() implies life.pos_ok((#[trigger] ws@[i]).0) by {
                    assert(ws@[i].0 == area_positions(min_pos, area)[i]);
                }
            }
            life.insert_all(&ws);
        },
        EditBar::Clear => {
            let ws = fill_writes(min_pos, area, Cell::new(0, 0));
            proof {
                crate::life::lemma_packed_faction(0, 0);
                crate::life::pos::lemma_area_nonneg(min_pos, area);
                assert forall|i: int| 0 <= i < ws@.len() implies life.pos_ok((#[trigger] ws@[i]).0) by {
                    assert(ws@[i].0 == area_positions(min_pos, area)[i]);
                }
            }
            life.insert_all(&ws);
        },
        EditBar::Copy => {
            if area.x == 0 || area.y == 0 {
                return ;
            }
            *clipboard = Some(life.copy(min_pos, area));
        },
        EditBar::Paste => {
            if let Some(c) = clipboard {
                life.paste(c, start_pos, None);
            }
        },
        EditBar::Pattern => {
            if let Some(c) = selected {
                life.paste(c, start_pos, None);
            }
        },
    }
}

} // verus!
