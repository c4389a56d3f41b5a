use vstd::prelude::*;
use crate::records::{EntryModel, LineClass, LineModel};
use crate::split::{flat_len, spec_split, starts_with, strip2};

verus! {

/// The two running line counters of the current file section.  They start at
/// zero and are set to one by each file boundary; content rows emitted before
/// the first boundary therefore carry zero-based numbers, which mirrors the
/// tolerated behaviour on truncated diffs.
pub struct Counters {
    pub old_line: int,
    pub new_line: int,
}

pub open spec fn initial_counters() -> Counters {
    Counters { old_line: 0, new_line: 0 }
}

/// What one raw line means, decided by `classify`.
pub enum LineKind {
    Boundary { old_path: Seq<char>, new_path: Seq<char> },
    Content { class: LineClass },
    Dropped,
}

/// A boundary line is recognized only when it splits on spaces into exactly
/// four tokens; the last two carry the paths.
pub open spec fn boundary_tokens_ok(line: Seq<char>) -> bool {
    spec_split(line, " "@).len() == 4
}

/// Classifies one raw line by its leading characters, testing the markers in
/// priority order: hunk ranges, file-identity lines and index lines are
/// dropped before any content marker is consulted, and a boundary line whose
/// token count is off falls through to the content tests (where its leading
/// `d` matches nothing, so it too is dropped).
pub open spec fn classify(line: Seq<char>) -> LineKind {
    if line.len() == 0 {
        LineKind::Dropped
    } else if line[0] == '@' {
        LineKind::Dropped
    } else if starts_with(line, "+++"@) {
        LineKind::Dropped
    } else if starts_with(line, "---"@) {
        LineKind::Dropped
    } else if starts_with(line, "index"@) {
        LineKind::Dropped
    } else if starts_with(line, "diff --git"@) && boundary_tokens_ok(line) {
        LineKind::Boundary {
            old_path: strip2(spec_split(line, " "@)[2]),
            new_path: strip2(spec_split(line, " "@)[3]),
        }
    } else if line[0] == ' ' {
        LineKind::Content { class: LineClass::Context }
    } else if line[0] == '+' {
        LineKind::Content { class: LineClass::Addition }
    } else if line[0] == '-' {
        LineKind::Content { class: LineClass::Removal }
    } else {
        LineKind::Dropped
    }
}

/// The entries that one raw line contributes to the output.
pub open spec fn step_entries(st: Counters, line: Seq<char>) -> Seq<EntryModel> {
    match classify(line) {
        LineKind::Boundary { old_path, new_path } => seq![
            EntryModel::Header { old_path, new_path },
        ],
        LineKind::Content { class } => seq![
            EntryModel::Line {
                line: LineModel {
                    line_class: class,
                    old_line_number: if class is Addition {
                        None
                    } else {
                        Some(st.old_line)
                    },
                    new_line_number: if class is Removal {
                        None
                    } else {
                        Some(st.new_line)
                    },
                    text: line.skip(1),
                },
            },
        ],
        LineKind::Dropped => Seq::empty(),
    }
}

/// How one raw line advances the counters: a boundary resets both to one, a
/// context row consumes a line on both sides, an addition only on the new
/// side, a removal only on the old side, and a dropped line touches nothing.
pub open spec fn step_counters(st: Counters, line: Seq<char>) -> Counters {
    match classify(line) {
        LineKind::Boundary { .. } => Counters { old_line: 1, new_line: 1 },
        LineKind::Content { class } => Counters {
            old_line: if class is Addition {
                st.old_line
            } else {
                st.old_line + 1
            },
            new_line: if class is Removal {
                st.new_line
            } else {
                st.new_line + 1
            },
        },
        LineKind::Dropped => st,
    }
}

/// The entries produced by a sequence of raw lines, started on counters `st`.
pub open spec fn run_entries(lines: Seq<Seq<char>>, st: Counters) -> Seq<EntryModel>
    decreases lines.len(),
{
    if lines.len() == 0 {
        Seq::empty()
    } else {
        step_entries(st, lines[0]).add(
            run_entries(lines.skip(1), step_counters(st, lines[0])),
        )
    }
}

/// The counters left behind by a sequence of raw lines.
pub open spec fn run_counters(lines: Seq<Seq<char>>, st: Counters) -> Counters
    decreases lines.len(),
{
    if lines.len() == 0 {
        st
    } else {
        run_counters(lines.skip(1), step_counters(st, lines[0]))
    }
}

/// The full parse of a raw diff text: split on the line terminator, then fold
/// the lines through the classifier and the counters.
pub open spec fn parse_model(text: Seq<char>) -> Seq<EntryModel> {
    run_entries(spec_split(text, "\n"@), initial_counters())
}

/// Both counters stay within one more than the number of characters already
/// consumed, because every counter move is paid for by a line of at least one
/// character.
pub open spec fn counters_bounded(st: Counters, consumed: int) -> bool {
    0 <= st.old_line <= 1 + consumed && 0 <= st.new_line <= 1 + consumed
}

pub proof fn lemma_step_counters_bounded(st: Counters, line: Seq<char>, consumed: int)
    requires
        counters_bounded(st, consumed),
    ensures
        counters_bounded(step_counters(st, line), consumed + line.len()),
{
    if classify(line) is Content {
        assert(line.len() >= 1);
    }
}

/// A content line leaves headroom for one more counter step: the step never
/// exceeds `bound`, provided the lines fit (with their separators) under
/// `bound`.
pub proof fn lemma_counter_headroom(lv: Seq<Seq<char>>, i: int, bound: int, v: int)
    requires
        0 <= i < lv.len(),
        lv[i].len() >= 1,
        flat_len(lv) + (lv.len() - 1) <= bound,
        bound >= 2,
        0 <= v <= 1 + flat_len(lv.take(i)),
    ensures
        v + 1 <= bound,
        v + 1 <= 1 + flat_len(lv.take(i + 1)),
{
    crate::split::lemma_flat_len_take_succ(lv, i);
    assert(lv =~= lv.take(i + 1).add(lv.skip(i + 1)));
    crate::split::lemma_flat_len_concat(lv.take(i + 1), lv.skip(i + 1));
    crate::split::lemma_flat_len_nonneg(lv.skip(i + 1));
    if lv.len() == 1 {
        assert(i == 0);
        assert(lv.take(0) =~= Seq::<Seq<char>>::empty());
        assert(flat_len(lv.take(0)) == 0);
    }
}

} // verus!
