use vstd::prelude::*;
use crate::model::{
    classify, initial_counters, parse_model, run_counters, run_entries, step_counters,
    step_entries, Counters,
};
use crate::records::{line_model_wf, EntryModel};
use crate::split::{spec_split, starts_with};

verus! {

pub open spec fn is_header(e: EntryModel) -> bool {
    e is Header
}

/// A row that consumes a line of the old file: context or removal.
pub open spec fn consumes_old(e: EntryModel) -> bool {
    e is Line && (e->line.line_class is Context || e->line.line_class is Removal)
}

/// A row that consumes a line of the new file: context or addition.
pub open spec fn consumes_new(e: EntryModel) -> bool {
    e is Line && (e->line.line_class is Context || e->line.line_class is Addition)
}

/// Whether a header stands anywhere in `es`.
pub open spec fn has_header(es: Seq<EntryModel>) -> bool
    decreases es.len(),
{
    if es.len() == 0 {
        false
    } else {
        is_header(es.last()) || has_header(es.drop_last())
    }
}

/// How many old-consuming rows follow the last header of `es` (or stand in
/// all of `es`, when it holds no header).
pub open spec fn old_consumed_since_header(es: Seq<EntryModel>) -> int
    decreases es.len(),
{
    if es.len() == 0 {
        0
    } else if is_header(es.last()) {
        0
    } else {
        old_consumed_since_header(es.drop_last()) + if consumes_old(es.last()) {
            1int
        } else {
            0int
        }
    }
}

/// How many new-consuming rows follow the last header of `es`.
pub open spec fn new_consumed_since_header(es: Seq<EntryModel>) -> int
    decreases es.len(),
{
    if es.len() == 0 {
        0
    } else if is_header(es.last()) {
        0
    } else {
        new_consumed_since_header(es.drop_last()) + if consumes_new(es.last()) {
            1int
        } else {
            0int
        }
    }
}

/// The value the old counter restarts from for the section a prefix ends in:
/// one once a header has been seen, else the starting counter.
pub open spec fn old_base(st: Counters, prefix: Seq<EntryModel>) -> int {
    if has_header(prefix) {
        1
    } else {
        st.old_line
    }
}

pub open spec fn new_base(st: Counters, prefix: Seq<EntryModel>) -> int {
    if has_header(prefix) {
        1
    } else {
        st.new_line
    }
}

proof fn lemma_prepend_counts(e: EntryModel, x: Seq<EntryModel>)
    ensures
        has_header(seq![e].add(x)) == (is_header(e) || has_header(x)),
        old_consumed_since_header(seq![e].add(x)) == if has_header(x) {
            old_consumed_since_header(x)
        } else {
            old_consumed_since_header(x) + if consumes_old(e) {
                1int
            } else {
                0int
            }
        },
        new_consumed_since_header(seq![e].add(x)) == if has_header(x) {
            new_consumed_since_header(x)
        } else {
            new_consumed_since_header(x) + if consumes_new(e) {
                1int
            } else {
                0int
            }
        },
    decreases x.len(),
{
    let y = seq![e].add(x);
    if x.len() == 0 {
        assert(y.len() == 1);
        assert(y.last() == e);
        assert(y.drop_last() =~= Seq::<EntryModel>::empty());
        assert(!has_header(Seq::<EntryModel>::empty()));
        assert(old_consumed_since_header(Seq::<EntryModel>::empty()) == 0);
        assert(new_consumed_since_header(Seq::<EntryModel>::empty()) == 0);
        assert(!has_header(x));
        assert(old_consumed_since_header(x) == 0);
        assert(new_consumed_since_header(x) == 0);
    } else {
        assert(y.last() == x.last());
        assert(y.drop_last() =~= seq![e].add(x.drop_last()));
        lemma_prepend_counts(e, x.drop_last());
        assert(has_header(x) == (is_header(x.last()) || has_header(x.drop_last())));
        if is_header(x.last()) {
            assert(old_consumed_since_header(y) == 0);
            assert(old_consumed_since_header(x) == 0);
            assert(new_consumed_since_header(y) == 0);
            assert(new_consumed_since_header(x) == 0);
        } else {
            assert(old_consumed_since_header(y) == old_consumed_since_header(y.drop_last())
                + if consumes_old(x.last()) { 1int } else { 0int });
            assert(old_consumed_since_header(x) == old_consumed_since_header(x.drop_last())
                + if consumes_old(x.last()) { 1int } else { 0int });
            assert(new_consumed_since_header(y) == new_consumed_since_header(y.drop_last())
                + if consumes_new(x.last()) { 1int } else { 0int });
            assert(new_consumed_since_header(x) == new_consumed_since_header(x.drop_last())
                + if consumes_new(x.last()) { 1int } else { 0int });
        }
    }
}

/// The engine behind the counter laws: in any run, every content row is
/// well formed, and the number carried by an old- or new-consuming row is
/// exactly the section's base plus the rows of its kind already consumed
/// since the last header.
pub proof fn lemma_run_numbers(lines: Seq<Seq<char>>, st: Counters, p: int)
    requires
        0 <= p < run_entries(lines, st).len(),
    ensures
        run_entries(lines, st)[p] is Line ==> line_model_wf(run_entries(lines, st)[p]->line),
        consumes_old(run_entries(lines, st)[p]) ==> run_entries(lines, st)[p]->line.old_line_number
            == Some(
            old_base(st, run_entries(lines, st).take(p)) + old_consumed_since_header(
                run_entries(lines, st).take(p),
            ),
        ),
        consumes_new(run_entries(lines, st)[p]) ==> run_entries(lines, st)[p]->line.new_line_number
            == Some(
            new_base(st, run_entries(lines, st).take(p)) + new_consumed_since_header(
                run_entries(lines, st).take(p),
            ),
        ),
    decreases lines.len(),
{
    let es = run_entries(lines, st);
    let head = step_entries(st, lines[0]);
    let st2 = step_counters(st, lines[0]);
    let rest = run_entries(lines.skip(1), st2);
    assert(es == head.add(rest));
    if head.len() == 0 {
        assert(es =~= rest);
        assert(st2 == st);
        lemma_run_numbers(lines.skip(1), st2, p);
        assert(es.take(p) =~= rest.take(p));
    } else {
        assert(head.len() == 1);
        let e0 = head[0];
        assert(es[0] == e0);
        if p == 0 {
            assert(es.take(0) =~= Seq::<EntryModel>::empty());
        } else {
            lemma_run_numbers(lines.skip(1), st2, p - 1);
            assert(es[p] == rest[p - 1]);
            assert(es.take(p) =~= seq![e0].add(rest.take(p - 1)));
            lemma_prepend_counts(e0, rest.take(p - 1));
        }
    }
}

/// Every content row of a parse satisfies the presence invariant: its class
/// alone determines which of the two line numbers it carries.
pub proof fn lemma_lines_well_formed(text: Seq<char>, p: int)
    requires
        0 <= p < parse_model(text).len(),
        parse_model(text)[p] is Line,
    ensures
        line_model_wf(parse_model(text)[p]->line),
{
    lemma_run_numbers(spec_split(text, "\n"@), initial_counters(), p);
}

/// The old-side number of an old-consuming row is fully determined by the
/// rows before it: the section base (one after a header, zero before any)
/// plus the old-consuming rows since the last header.
pub proof fn lemma_old_number_determined(text: Seq<char>, p: int)
    requires
        0 <= p < parse_model(text).len(),
        consumes_old(parse_model(text)[p]),
    ensures
        parse_model(text)[p]->line.old_line_number == Some(
            old_base(initial_counters(), parse_model(text).take(p)) + old_consumed_since_header(
                parse_model(text).take(p),
            ),
        ),
{
    lemma_run_numbers(spec_split(text, "\n"@), initial_counters(), p);
}

/// The new-side counterpart of `lemma_old_number_determined`.
pub proof fn lemma_new_number_determined(text: Seq<char>, p: int)
    requires
        0 <= p < parse_model(text).len(),
        consumes_new(parse_model(text)[p]),
    ensures
        parse_model(text)[p]->line.new_line_number == Some(
            new_base(initial_counters(), parse_model(text).take(p)) + new_consumed_since_header(
                parse_model(text).take(p),
            ),
        ),
{
    lemma_run_numbers(spec_split(text, "\n"@), initial_counters(), p);
}

/// The old-consuming rows of `es` with index in `[i, j)`.
pub open spec fn count_old_in(es: Seq<EntryModel>, i: int, j: int) -> int
    decreases j - i,
{
    if i >= j {
        0
    } else {
        count_old_in(es, i, j - 1) + if consumes_old(es[j - 1]) {
            1int
        } else {
            0int
        }
    }
}

/// The new-consuming rows of `es` with index in `[i, j)`.
pub open spec fn count_new_in(es: Seq<EntryModel>, i: int, j: int) -> int
    decreases j - i,
{
    if i >= j {
        0
    } else {
        count_new_in(es, i, j - 1) + if consumes_new(es[j - 1]) {
            1int
        } else {
            0int
        }
    }
}

proof fn lemma_segment_counts(es: Seq<EntryModel>, i: int, j: int)
    requires
        0 <= i <= j <= es.len(),
        forall|k: int| i <= k < j ==> !is_header(es[k]),
    ensures
        has_header(es.take(j)) == has_header(es.take(i)),
        old_consumed_since_header(es.take(j)) == old_consumed_since_header(es.take(i))
            + count_old_in(es, i, j),
        new_consumed_since_header(es.take(j)) == new_consumed_since_header(es.take(i))
            + count_new_in(es, i, j),
    decreases j - i,
{
    if i < j {
        lemma_segment_counts(es, i, j - 1);
        assert(es.take(j).last() == es[j - 1]);
        assert(es.take(j).drop_last() =~= es.take(j - 1));
    }
}

/// Within one file section the old-side numbers are strictly increasing by
/// one per consumed old line: if `q` is the next old-consuming row after `p`
/// and no file header stands between them, then its old number is the
/// predecessor's plus one.
pub proof fn lemma_old_numbers_increase_by_one(text: Seq<char>, p: int, q: int)
    requires
        0 <= p < q < parse_model(text).len(),
        consumes_old(parse_model(text)[p]),
        consumes_old(parse_model(text)[q]),
        forall|k: int|
            p < k < q ==> !is_header(parse_model(text)[k]) && !consumes_old(parse_model(text)[k]),
    ensures
        parse_model(text)[p]->line.old_line_number is Some,
        parse_model(text)[q]->line.old_line_number == Some(
            parse_model(text)[p]->line.old_line_number->0 + 1,
        ),
{
    let es = parse_model(text);
    lemma_old_number_determined(text, p);
    lemma_old_number_determined(text, q);
    lemma_segment_counts(es, p, q);
    lemma_count_old_single(es, p, q);
}

proof fn lemma_count_old_single(es: Seq<EntryModel>, p: int, q: int)
    requires
        0 <= p < q <= es.len(),
        consumes_old(es[p]),
        forall|k: int| p < k < q ==> !consumes_old(es[k]),
    ensures
        count_old_in(es, p, q) == 1,
    decreases q - p,
{
    if q - 1 > p {
        lemma_count_old_single(es, p, q - 1);
        assert(!consumes_old(es[q - 1]));
    } else {
        assert(q - 1 == p);
        assert(count_old_in(es, p, p) == 0);
        assert(consumes_old(es[q - 1]));
    }
}

proof fn lemma_count_new_single(es: Seq<EntryModel>, p: int, q: int)
    requires
        0 <= p < q <= es.len(),
        consumes_new(es[p]),
        forall|k: int| p < k < q ==> !consumes_new(es[k]),
    ensures
        count_new_in(es, p, q) == 1,
    decreases q - p,
{
    if q - 1 > p {
        lemma_count_new_single(es, p, q - 1);
        assert(!consumes_new(es[q - 1]));
    } else {
        assert(q - 1 == p);
        assert(count_new_in(es, p, p) == 0);
        assert(consumes_new(es[q - 1]));
    }
}

/// The new-side counterpart of `lemma_old_numbers_increase_by_one`.
pub proof fn lemma_new_numbers_increase_by_one(text: Seq<char>, p: int, q: int)
    requires
        0 <= p < q < parse_model(text).len(),
        consumes_new(parse_model(text)[p]),
        consumes_new(parse_model(text)[q]),
        forall|k: int|
            p < k < q ==> !is_header(parse_model(text)[k]) && !consumes_new(parse_model(text)[k]),
    ensures
        parse_model(text)[p]->line.new_line_number is Some,
        parse_model(text)[q]->line.new_line_number == Some(
            parse_model(text)[p]->line.new_line_number->0 + 1,
        ),
{
    let es = parse_model(text);
    lemma_new_number_determined(text, p);
    lemma_new_number_determined(text, q);
    lemma_segment_counts(es, p, q);
    lemma_count_new_single(es, p, q);
}

proof fn lemma_count_none_old(es: Seq<EntryModel>, p: int, q: int)
    requires
        0 <= p <= q <= es.len(),
        forall|k: int| p <= k < q ==> !consumes_old(es[k]),
    ensures
        count_old_in(es, p, q) == 0,
    decreases q - p,
{
    if q > p {
        lemma_count_none_old(es, p, q - 1);
    }
}

proof fn lemma_count_none_new(es: Seq<EntryModel>, p: int, q: int)
    requires
        0 <= p <= q <= es.len(),
        forall|k: int| p <= k < q ==> !consumes_new(es[k]),
    ensures
        count_new_in(es, p, q) == 0,
    decreases q - p,
{
    if q > p {
        lemma_count_none_new(es, p, q - 1);
    }
}

/// A boundary header resets both counters to one, whatever the previous
/// section's counters ended on: the first old-consuming row after a header
/// carries old number one, and the first new-consuming row carries new
/// number one.
pub proof fn lemma_header_resets_numbers(text: Seq<char>, h: int, q: int)
    requires
        0 <= h < q < parse_model(text).len(),
        is_header(parse_model(text)[h]),
        forall|k: int| h < k < q ==> !is_header(parse_model(text)[k]),
    ensures
        consumes_old(parse_model(text)[q]) && (forall|k: int|
            h < k < q ==> !consumes_old(parse_model(text)[k])) ==> parse_model(
            text,
        )[q]->line.old_line_number == Some(1int),
        consumes_new(parse_model(text)[q]) && (forall|k: int|
            h < k < q ==> !consumes_new(parse_model(text)[k])) ==> parse_model(
            text,
        )[q]->line.new_line_number == Some(1int),
{
    let es = parse_model(text);
    assert(es.take(h + 1).last() == es[h]);
    assert(has_header(es.take(h + 1)));
    assert(old_consumed_since_header(es.take(h + 1)) == 0);
    assert(new_consumed_since_header(es.take(h + 1)) == 0);
    lemma_segment_counts(es, h + 1, q);
    if consumes_old(es[q]) && (forall|k: int| h < k < q ==> !consumes_old(es[k])) {
        lemma_old_number_determined(text, q);
        lemma_count_none_old(es, h + 1, q);
    }
    if consumes_new(es[q]) && (forall|k: int| h < k < q ==> !consumes_new(es[k])) {
        lemma_new_number_determined(text, q);
        lemma_count_none_new(es, h + 1, q);
    }
}

/// Whether a raw line is a hunk-range line or one of the two file-identity
/// lines.
pub open spec fn is_marker_line(line: Seq<char>) -> bool {
    line.len() >= 1 && (line[0] == '@' || starts_with(line, "+++"@) || starts_with(line, "---"@))
}

/// A hunk-range or file-identity line produces no output record and leaves
/// the counters untouched.
pub proof fn lemma_marker_line_no_output(line: Seq<char>, st: Counters)
    requires
        is_marker_line(line),
    ensures
        step_entries(st, line) == Seq::<EntryModel>::empty(),
        step_counters(st, line) == st,
{
    assert(classify(line) is Dropped);
}

/// A hunk-range or file-identity line can be struck from the raw lines
/// without changing the parse: neither the emitted records nor the final
/// counters move.
pub proof fn lemma_marker_line_inert(lines: Seq<Seq<char>>, st: Counters, i: int)
    requires
        0 <= i < lines.len(),
        is_marker_line(lines[i]),
    ensures
        run_entries(lines, st) == run_entries(lines.remove(i), st),
        run_counters(lines, st) == run_counters(lines.remove(i), st),
    decreases lines.len(),
{
    if i == 0 {
        lemma_marker_line_no_output(lines[0], st);
        assert(lines.remove(0) =~= lines.skip(1));
        assert(Seq::<EntryModel>::empty().add(run_entries(lines.skip(1), st)) =~= run_entries(
            lines.skip(1),
            st,
        ));
    } else {
        assert(lines.remove(i)[0] == lines[0]);
        assert(lines.remove(i).skip(1) =~= lines.skip(1).remove(i - 1));
        assert(lines.skip(1)[i - 1] == lines[i]);
        lemma_marker_line_inert(lines.skip(1), step_counters(st, lines[0]), i - 1);
    }
}

} // verus!
