//! The memory palace: how its layout is shown to the agent, and how long
//! texts are cut for display.
use vstd::prelude::*;

use crate::skills::push_str;
use crate::text::{chars_eq, chars_of, slice_vec, string_of, trim, trimmed, Strip};

verus! {

broadcast use vstd::string::group_string_axioms;

/// `text` trimmed, and cut to `max_chars` characters with an ellipsis when
/// it is longer.
pub open spec fn spec_truncate(text: Seq<char>, max_chars: nat) -> Seq<char> {
    let t = trim(text);
    if t.len() <= max_chars {
        t
    } else {
        t.take(max_chars as int) + seq!['\u{2026}']
    }
}

/// `text` trimmed, and cut to `max_chars` characters (then followed by an
/// ellipsis) when it is longer.
pub fn truncate(text: &str, max_chars: usize) -> (r: String)
    ensures
        r@ == spec_truncate(text@, max_chars as nat),
{
    let v = chars_of(text);
    let t = trimmed(v.as_slice(), Strip::Whitespace);
    if t.len() <= max_chars {
        return string_of(t.as_slice());
    }
    let mut out = slice_vec(t.as_slice(), 0, max_chars);
    out.push('\u{2026}');
    string_of(out.as_slice())
}

/// One wing of the palace with one of its rooms (`None` for a wing with no
/// rooms), as listed by wing and then room name.
#[derive(Clone, Debug)]
pub struct PalaceRow {
    pub wing: String,
    pub room: Option<String>,
}

pub open spec fn row_view(r: PalaceRow) -> (Seq<char>, Option<Seq<char>>) {
    (
        r.wing@,
        match r.room {
            Some(x) => Some(x@),
            None => None,
        },
    )
}

pub open spec fn row_views(rows: Seq<PalaceRow>) -> Seq<(Seq<char>, Option<Seq<char>>)> {
    rows.map_values(|r: PalaceRow| row_view(r))
}

/// The lines for row `i` of `rows`: the wing when it differs from the row
/// before, then the room when there is one.
pub open spec fn palace_row_text(rows: Seq<(Seq<char>, Option<Seq<char>>)>, i: int) -> Seq<char> {
    let wing = rows[i].0;
    let room = rows[i].1;
    (if i == 0 || rows[i - 1].0 != wing {
        "- "@ + wing + "\n"@
    } else {
        Seq::empty()
    }) + (if room is Some && room->0.len() > 0 {
        "  - "@ + room->0 + "\n"@
    } else {
        Seq::empty()
    })
}

/// The palace listing: each wing once, each room under its wing.
pub open spec fn palace_lines(rows: Seq<(Seq<char>, Option<Seq<char>>)>) -> Seq<char>
    decreases rows.len(),
{
    if rows.len() == 0 {
        Seq::empty()
    } else {
        palace_lines(rows.drop_last()) + palace_row_text(rows, rows.len() - 1)
    }
}

pub open spec fn palace_header() -> Seq<char> {
    "## Memory Palace\n\n\
     You have a persistent personal memory that survives across conversations. Store durable \
     facts, decisions, preferences and context here, and recall them when relevant.\n\n\
     - `remember` — save a memory under a wing (subject) and room (topic), with a short summary and the full content.\n\
     - `recall` — search your memory by meaning to retrieve what you stored before.\n\
     - `explore_palace` — walk the palace to see which wings and rooms exist.\n\
     - `connect_memories` — link two related rooms.\n\n"@
}

pub open spec fn project_wing_text(wing: Seq<char>) -> Seq<char> {
    "This thread belongs to a project. Its memory wing is `"@ + wing
        + "` — `remember` and `recall` default to it, so you can omit the wing. Name a different wing to store or search elsewhere.\n\n"@
}

/// The palace section of the system prompt: what the memory tools do, the
/// project's wing when the thread has one, and the wings and rooms stored
/// (nothing more when they could not be read).
pub open spec fn spec_palace_map(
    project_wing: Option<Seq<char>>,
    rows: Option<Seq<(Seq<char>, Option<Seq<char>>)>>,
) -> Seq<char> {
    palace_header() + (match project_wing {
        Some(w) => project_wing_text(w),
        None => Seq::empty(),
    }) + match rows {
        None => Seq::empty(),
        Some(rs) => if rs.len() == 0 {
            "Current palace: empty — nothing stored yet.\n"@
        } else {
            "Current palace:\n"@ + palace_lines(rs)
        },
    }
}

/// The palace section of the system prompt for the rows read from the
/// store (`None` when reading them failed).
pub fn palace_map(project_wing: Option<&str>, rows: Option<&[PalaceRow]>) -> (r: String)
    ensures
        r@ == spec_palace_map(
            match project_wing {
                Some(w) => Some(w@),
                None => None,
            },
            match rows {
                Some(v) => Some(row_views(v@)),
                None => None,
            },
        ),
{
    let mut section = String::new();
    push_str(
        &mut section,
        "## Memory Palace\n\n\
         You have a persistent personal memory that survives across conversations. Store durable \
         facts, decisions, preferences and context here, and recall them when relevant.\n\n\
         - `remember` — save a memory under a wing (subject) and room (topic), with a short summary and the full content.\n\
         - `recall` — search your memory by meaning to retrieve what you stored before.\n\
         - `explore_palace` — walk the palace to see which wings and rooms exist.\n\
         - `connect_memories` — link two related rooms.\n\n",
    );
    if let Some(wing) = project_wing {
        push_str(&mut section, "This thread belongs to a project. Its memory wing is `");
        push_str(&mut section, wing);
        push_str(
            &mut section,
            "` — `remember` and `recall` default to it, so you can omit the wing. Name a different wing to store or search elsewhere.\n\n",
        );
    }
    let rows = match rows {
        None => {
            return section;
        },
        Some(rows) => rows,
    };
    if rows.len() == 0 {
        push_str(&mut section, "Current palace: empty — nothing stored yet.\n");
        return section;
    }
    push_str(&mut section, "Current palace:\n");
    let ghost rv = row_views(rows@);
    let ghost start = section@;
    let mut i: usize = 0;
    while i < rows.len()
        invariant
            rv == row_views(rows@),
            rv.len() == rows@.len(),
            i <= rows.len(),
            section@ == start + palace_lines(rv.take(i as int)),
        decreases rows.len() - i,
    {
        let ghost t = rv.take(i + 1);
        assert(t.drop_last() == rv.take(i as int));
        assert(t[i as int] == rv[i as int]);
        assert(i > 0 ==> t[i - 1] == rv[i - 1]);
        assert(rv[i as int] == row_view(rows@[i as int]));
        assert(i > 0 ==> rv[i - 1] == row_view(rows@[i - 1]));
        let ghost before = section@;
        let new_wing = i == 0 || !chars_eq(
            chars_of(rows[i - 1].wing.as_str()).as_slice(),
            chars_of(rows[i].wing.as_str()).as_slice(),
        );
        if new_wing {
            push_str(&mut section, "- ");
            push_str(&mut section, rows[i].wing.as_str());
            push_str(&mut section, "\n");
        }
        match &rows[i].room {
            Some(room) => {
                if !room.as_str().is_empty() {
                    push_str(&mut section, "  - ");
                    push_str(&mut section, room.as_str());
                    push_str(&mut section, "\n");
                }
            },
            None => {},
        }
        assert(section@ =~= before + palace_row_text(t, i as int));
        i += 1;
    }
    assert(rv.take(i as int) == rv);
    section
}

} // verus!
