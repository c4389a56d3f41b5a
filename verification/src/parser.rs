use vstd::prelude::*;
use vstd::string::StrSliceExecFns;
use crate::model::{
    boundary_tokens_ok, classify, counters_bounded, initial_counters, lemma_counter_headroom,
    lemma_step_counters_bounded, parse_model, run_entries, step_counters, step_entries, Counters,
    LineKind,
};
use crate::records::{
    entry_views, DiffEntry, DiffLine, EntryModel, FileHeaderRecord, LineClass, ParsedDiff,
};
use crate::split::{
    first_char_is, flat_len, lemma_flat_len_nonneg, lemma_flat_len_take_succ, lemma_split_flat_le,
    lemma_split_len, spec_split, split_str, starts_with, str_starts_with, strip_first,
    strip_side_marker, strip2, views_of,
};

verus! {

proof fn lemma_advance(lv: Seq<Seq<char>>, i: int, st: Counters, acc: Seq<EntryModel>)
    requires
        0 <= i < lv.len(),
    ensures
        acc.add(run_entries(lv.skip(i), st)) == acc.add(step_entries(st, lv[i])).add(
            run_entries(lv.skip(i + 1), step_counters(st, lv[i])),
        ),
{
    assert(lv.skip(i)[0] == lv[i]);
    assert(lv.skip(i).skip(1) =~= lv.skip(i + 1));
    assert(run_entries(lv.skip(i), st) == step_entries(st, lv[i]).add(
        run_entries(lv.skip(i + 1), step_counters(st, lv[i])),
    ));
    assert(acc.add(
        step_entries(st, lv[i]).add(run_entries(lv.skip(i + 1), step_counters(st, lv[i]))),
    ) =~= acc.add(step_entries(st, lv[i])).add(
        run_entries(lv.skip(i + 1), step_counters(st, lv[i])),
    ));
}

proof fn lemma_entry_views_push(es: Seq<DiffEntry>, e: DiffEntry)
    ensures
        entry_views(es.push(e)) == entry_views(es).add(seq![e@]),
{
    assert(entry_views(es.push(e)) =~= entry_views(es).add(seq![e@]));
}

/// Parses a raw unified-diff text into its renderable records.  The parse is
/// total and best-effort: unrecognized or malformed lines are dropped and no
/// input is ever rejected.  Each boundary line yields a header record and
/// resets both counters to one; content rows carry the running counters as
/// `parse_model` lays down, line by line.
pub fn parse(diff: &str) -> (out: ParsedDiff)
    ensures
        out@ == parse_model(diff@),
{
    let n = diff.unicode_len();
    proof {
        reveal_strlit("\n");
    }
    let lines = split_str(diff, "\n");
    let ghost lv = spec_split(diff@, "\n"@);
    proof {
        lemma_split_flat_le(diff@, "\n"@);
        lemma_split_len(diff@, "\n"@);
        assert(lines@.len() == lv.len());
        assert(lv.skip(0) =~= lv);
        assert(entry_views(Seq::<DiffEntry>::empty()) =~= Seq::<EntryModel>::empty());
        assert(Seq::<EntryModel>::empty().add(run_entries(lv, initial_counters())) =~= run_entries(
            lv,
            initial_counters(),
        ));
        assert(lv.take(0) =~= Seq::<Seq<char>>::empty());
    }
    let mut entries: Vec<DiffEntry> = Vec::new();
    let mut old_line: usize = 0;
    let mut new_line: usize = 0;
    let mut i: usize = 0;
    while i < lines.len()
        invariant
            n == diff@.len(),
            lv == spec_split(diff@, "\n"@),
            views_of(lines@) == lv,
            lines@.len() == lv.len(),
            lv.len() >= 1,
            flat_len(lv) + (lv.len() - 1) <= n as int,
            i <= lines.len(),
            counters_bounded(
                Counters { old_line: old_line as int, new_line: new_line as int },
                flat_len(lv.take(i as int)),
            ),
            run_entries(lv, initial_counters()) == entry_views(entries@).add(
                run_entries(
                    lv.skip(i as int),
                    Counters { old_line: old_line as int, new_line: new_line as int },
                ),
            ),
        decreases lines.len() - i,
    {
        let ghost st = Counters { old_line: old_line as int, new_line: new_line as int };
        let ghost line_v = lv[i as int];
        let line: &String = &lines[i];
        proof {
            assert(views_of(lines@)[i as int] == lines@[i as int]@);
            assert(line_v == line@);
            lemma_advance(lv, i as int, st, entry_views(entries@));
            lemma_step_counters_bounded(st, line_v, flat_len(lv.take(i as int)));
            lemma_flat_len_take_succ(lv, i as int);
        }
        let s: &str = line.as_str();
        if first_char_is(s, '@') {
            proof {
                assert(classify(line_v) is Dropped);
                assert(entry_views(entries@).add(step_entries(st, line_v)) =~= entry_views(
                    entries@,
                ));
            }
        } else if str_starts_with(s, "+++") {
            proof {
                assert(classify(line_v) is Dropped);
                assert(entry_views(entries@).add(step_entries(st, line_v)) =~= entry_views(
                    entries@,
                ));
            }
        } else if str_starts_with(s, "---") {
            proof {
                assert(classify(line_v) is Dropped);
                assert(entry_views(entries@).add(step_entries(st, line_v)) =~= entry_views(
                    entries@,
                ));
            }
        } else if str_starts_with(s, "index") {
            proof {
                assert(classify(line_v) is Dropped);
                assert(entry_views(entries@).add(step_entries(st, line_v)) =~= entry_views(
                    entries@,
                ));
            }
        } else if str_starts_with(s, "diff --git") {
            proof {
                reveal_strlit(" ");
            }
            let tokens = split_str(s, " ");
            if tokens.len() == 4 {
                proof {
                    assert(views_of(tokens@) == spec_split(line_v, " "@));
                    assert(boundary_tokens_ok(line_v));
                    assert(views_of(tokens@)[2] == tokens@[2]@);
                    assert(views_of(tokens@)[3] == tokens@[3]@);
                }
                let op = strip_side_marker(tokens[2].as_str());
                let np = strip_side_marker(tokens[3].as_str());
                let rec = DiffEntry::Header(FileHeaderRecord { old_path: op, new_path: np });
                proof {
                    assert(classify(line_v) == (LineKind::Boundary {
                        old_path: strip2(spec_split(line_v, " "@)[2]),
                        new_path: strip2(spec_split(line_v, " "@)[3]),
                    }));
                    assert(step_entries(st, line_v) == seq![rec@]);
                    lemma_entry_views_push(entries@, rec);
                    lemma_flat_len_nonneg(lv.take(i as int));
                    assert(step_counters(st, line_v) == (Counters { old_line: 1, new_line: 1 }));
                }
                entries.push(rec);
                old_line = 1;
                new_line = 1;
            } else {
                proof {
                    reveal_strlit("diff --git");
                    assert(starts_with(line_v, "diff --git"@));
                    assert(line_v.take(10)[0] == line_v[0]);
                    assert(line_v[0] == 'd');
                    assert(views_of(tokens@) == spec_split(line_v, " "@));
                    assert(!boundary_tokens_ok(line_v));
                    assert(classify(line_v) is Dropped);
                    assert(entry_views(entries@).add(step_entries(st, line_v)) =~= entry_views(
                        entries@,
                    ));
                }
            }
        } else if first_char_is(s, ' ') {
            let text = strip_first(s);
            let rec = DiffEntry::Line(
                DiffLine {
                    line_class: LineClass::Context,
                    old_line_number: Some(old_line),
                    new_line_number: Some(new_line),
                    text,
                },
            );
            proof {
                assert(classify(line_v) == (LineKind::Content { class: LineClass::Context }));
                assert(step_entries(st, line_v) == seq![rec@]);
                lemma_entry_views_push(entries@, rec);
                lemma_counter_headroom(lv, i as int, usize::MAX as int, old_line as int);
                lemma_counter_headroom(lv, i as int, usize::MAX as int, new_line as int);
            }
            entries.push(rec);
            old_line = old_line + 1;
            new_line = new_line + 1;
        } else if first_char_is(s, '+') {
            let text = strip_first(s);
            let rec = DiffEntry::Line(
                DiffLine {
                    line_class: LineClass::Addition,
                    old_line_number: None,
                    new_line_number: Some(new_line),
                    text,
                },
            );
            proof {
                assert(classify(line_v) == (LineKind::Content { class: LineClass::Addition }));
                assert(step_entries(st, line_v) == seq![rec@]);
                lemma_entry_views_push(entries@, rec);
                lemma_counter_headroom(lv, i as int, usize::MAX as int, new_line as int);
            }
            entries.push(rec);
            new_line = new_line + 1;
        } else if first_char_is(s, '-') {
            let text = strip_first(s);
            let rec = DiffEntry::Line(
                DiffLine {
                    line_class: LineClass::Removal,
                    old_line_number: Some(old_line),
                    new_line_number: None,
                    text,
                },
            );
            proof {
                assert(classify(line_v) == (LineKind::Content { class: LineClass::Removal }));
                assert(step_entries(st, line_v) == seq![rec@]);
                lemma_entry_views_push(entries@, rec);
                lemma_counter_headroom(lv, i as int, usize::MAX as int, old_line as int);
            }
            entries.push(rec);
            old_line = old_line + 1;
        } else {
            proof {
                assert(classify(line_v) is Dropped);
                assert(entry_views(entries@).add(step_entries(st, line_v)) =~= entry_views(
                    entries@,
                ));
            }
        }
        i += 1;
    }
    proof {
        assert(lv.skip(lines@.len() as int) =~= Seq::<Seq<char>>::empty());
        assert(entry_views(entries@).add(Seq::<EntryModel>::empty()) =~= entry_views(entries@));
    }
    ParsedDiff { entries }
}

/// The two blob identifiers of an `index <oldblob>..<newblob> <mode>` line:
/// present exactly when the line starts with the index marker, splits on
/// spaces into three tokens, and its middle token splits on `..` into two.
pub open spec fn index_ids(line: Seq<char>) -> Option<(Seq<char>, Seq<char>)> {
    if starts_with(line, "index"@) && spec_split(line, " "@).len() == 3 && spec_split(
        spec_split(line, " "@)[1],
        ".."@,
    ).len() == 2 {
        Some(
            (
                spec_split(spec_split(line, " "@)[1], ".."@)[0],
                spec_split(spec_split(line, " "@)[1], ".."@)[1],
            ),
        )
    } else {
        None
    }
}

/// Extracts the old and new blob identifiers that an index line restates.
/// They identify the current file pair, but are informational only: the paths
/// of a later boundary line supersede them, so the main parse drops index
/// lines without consulting them.  Malformed index lines yield `None` and are
/// never an error.
pub fn parse_index_line(line: &str) -> (r: Option<(String, String)>)
    ensures
        match r {
            Some(p) => index_ids(line@) == Some((p.0@, p.1@)),
            None => index_ids(line@) is None,
        },
{
    proof {
        reveal_strlit(" ");
        reveal_strlit("..");
    }
    if !str_starts_with(line, "index") {
        return None;
    }
    let tokens = split_str(line, " ");
    proof {
        assert(views_of(tokens@) == spec_split(line@, " "@));
    }
    if tokens.len() != 3 {
        return None;
    }
    proof {
        assert(views_of(tokens@)[1] == tokens@[1]@);
    }
    let ids = split_str(tokens[1].as_str(), "..");
    proof {
        assert(views_of(ids@) == spec_split(tokens@[1]@, ".."@));
    }
    if ids.len() != 2 {
        return None;
    }
    proof {
        assert(views_of(ids@)[0] == ids@[0]@);
        assert(views_of(ids@)[1] == ids@[1]@);
    }
    let o = ids[0].clone();
    let nb = ids[1].clone();
    Some((o, nb))
}

} // verus!
