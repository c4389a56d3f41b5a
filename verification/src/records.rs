use vstd::prelude::*;

verus! {

/// A fetched change payload: the raw unified-diff text that `parse` consumes.
/// Retrieval of the payload is a collaborator's concern and lives outside
/// this library.
#[derive(Clone, Debug)]
pub struct Change {
    pub diff: String,
}

/// The classification of one content row of a unified diff.
#[derive(Clone, Copy, Debug, PartialEq, Eq, Structural)]
pub enum LineClass {
    Context,
    Addition,
    Removal,
}

/// One renderable content row: its class, the two running line numbers, and
/// the line's text with the one-character diff marker already stripped.
#[derive(Clone, Debug)]
pub struct DiffLine {
    pub line_class: LineClass,
    pub old_line_number: Option<usize>,
    pub new_line_number: Option<usize>,
    pub text: String,
}

/// Emitted once per detected file-change boundary, carrying the two sides of
/// the change with their two-character side markers stripped.
#[derive(Clone, Debug)]
pub struct FileHeaderRecord {
    pub old_path: String,
    pub new_path: String,
}

/// One entry of a parsed diff, in input order.
#[derive(Clone, Debug)]
pub enum DiffEntry {
    Header(FileHeaderRecord),
    Line(DiffLine),
}

/// The parser's output: an ordered sequence of entries that a renderer walks
/// top to bottom.
#[derive(Clone, Debug)]
pub struct ParsedDiff {
    pub entries: Vec<DiffEntry>,
}

/// The ghost image of a `DiffLine`.
pub struct LineModel {
    pub line_class: LineClass,
    pub old_line_number: Option<int>,
    pub new_line_number: Option<int>,
    pub text: Seq<char>,
}

/// The ghost image of one parsed entry.
pub enum EntryModel {
    Header { old_path: Seq<char>, new_path: Seq<char> },
    Line { line: LineModel },
}

impl View for DiffLine {
    type V = LineModel;

    open spec fn view(&self) -> LineModel {
        LineModel {
            line_class: self.line_class,
            old_line_number: match self.old_line_number {
                Some(n) => Some(n as int),
                None => None,
            },
            new_line_number: match self.new_line_number {
                Some(n) => Some(n as int),
                None => None,
            },
            text: self.text@,
        }
    }
}

impl View for DiffEntry {
    type V = EntryModel;

    open spec fn view(&self) -> EntryModel {
        match self {
            DiffEntry::Header(h) => EntryModel::Header {
                old_path: h.old_path@,
                new_path: h.new_path@,
            },
            DiffEntry::Line(l) => EntryModel::Line { line: l@ },
        }
    }
}

/// The views of a sequence of parsed entries.
pub open spec fn entry_views(es: Seq<DiffEntry>) -> Seq<EntryModel> {
    es.map_values(|e: DiffEntry| e@)
}

impl View for ParsedDiff {
    type V = Seq<EntryModel>;

    open spec fn view(&self) -> Seq<EntryModel> {
        entry_views(self.entries@)
    }
}

/// The presence invariant of a content row: which of the two line numbers is
/// carried is fully determined by the class.  A context row carries both, an
/// addition only the new number, a removal only the old number.
pub open spec fn line_model_wf(l: LineModel) -> bool {
    match l.line_class {
        LineClass::Context => l.old_line_number is Some && l.new_line_number is Some,
        LineClass::Addition => l.old_line_number is None && l.new_line_number is Some,
        LineClass::Removal => l.old_line_number is Some && l.new_line_number is None,
    }
}

} // verus!
