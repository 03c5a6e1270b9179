//! What reports promise: everything that was found is told, in its order, and the numbers that are
//! told are those of what was found.

use vstd::prelude::*;

use crate::connect::{ConnectionsModel, PairModel, TemporalModel};
use crate::harvest::{is_plain_name, law_files_are_named_by_the_last_part};
use crate::index::IndexStats;
use crate::publish::{
    PlanEntityModel, PlanFlagModel, PlanLoopModel, PlanModel, PlanNoteModel, PlanProjectModel,
};
use crate::query::{
    AboutModel, CoMentionModel, DanglingModel, FactModel, HitModel, NoteRefModel, OpenLoopModel,
};
use crate::report::{
    about_report, audit_report, audit_sources, connect_report, dangling_report, date_column,
    done_report, index_lines, pad_left, pad_right, rebuild_report, search_report, short_loop,
    source_label, spaces, status_report, unclear_report, why_report, with_co_mentions, with_commits,
    with_facts, with_git, with_hits, with_loops, with_matches, with_note_refs, with_pairs,
    with_plan_entities, with_plan_flags, with_plan_loops, with_plan_notes, with_plan_projects,
    with_sources, with_temporal, GitSummaryModel,
};
use crate::status::{SourceStatusModel, StatusModel};
use crate::text::{decimal, decimal_int};

verus! {

/// Whether a text is padded to a width: it stands at one end, nothing but spaces besides, and no
/// more than it takes.
pub open spec fn is_padded(
    text: Seq<char>,
    padded: Seq<char>,
    before: Seq<char>,
    behind: Seq<char>,
) -> bool {
    &&& padded == before + text + behind
    &&& forall|i: int| 0 <= i < before.len() ==> #[trigger] before[i] == ' '
    &&& forall|i: int| 0 <= i < behind.len() ==> #[trigger] behind[i] == ' '
}

/// Padding puts spaces behind or before a text up to a width, and never cuts it.
pub proof fn law_padding_only_adds_spaces(text: Seq<char>, width: int)
    ensures
        is_padded(text, pad_right(text, width), Seq::empty(), spaces(width - text.len())),
        is_padded(text, pad_left(text, width), spaces(width - text.len()), Seq::empty()),
        text.len() <= width ==> pad_right(text, width).len() == width && pad_left(text, width).len()
            == width,
        text.len() > width ==> pad_right(text, width) == text && pad_left(text, width) == text,
{
    let none = Seq::<char>::empty();
    assert(pad_right(text, width) =~= none + text + spaces(width - text.len()));
    assert(pad_left(text, width) =~= spaces(width - text.len()) + text + none);
}

/// A loop is told whole up to 110 characters; a longer one is cut to as many, with dots at its end.
pub proof fn law_long_loops_are_cut(text: Seq<char>)
    ensures
        text.len() <= 110 ==> short_loop(text) == text,
        text.len() > 110 ==> short_loop(text).len() == 110 && short_loop(text).take(107)
            == text.take(107) && short_loop(text).skip(107) == "..."@,
{
    reveal_strlit("...");
    if text.len() > 110 {
        assert(short_loop(text).take(107) =~= text.take(107));
        assert(short_loop(text).skip(107) =~= "..."@);
    }
}

/// Where an edge starts is told by the file name of a note, and by the name of anything else.
pub proof fn law_sources_are_told_by_file(
    dir: Seq<char>,
    name: Seq<char>,
    kind: Seq<char>,
    other: Seq<char>,
)
    requires
        is_plain_name(name),
        kind != "note"@,
    ensures
        source_label(dir.push('/') + name, "note"@) == name,
        source_label(other, kind) == other,
{
    law_files_are_named_by_the_last_part(dir, name);
}

// ---------------------------------------------------------------------------
// Search

/// Whether the line at a place tells of a hit, and the next one shows what was found, if anything
/// is shown.
pub open spec fn hit_told(report: Seq<Seq<char>>, p: int, hit: HitModel) -> bool {
    &&& 0 <= p < report.len()
    &&& report[p] == date_column(hit.note_date) + "  "@ + hit.path
    &&& hit.snippet.len() > 0 ==> p + 1 < report.len() && report[p + 1] == "    ..."@ + hit.snippet
        + "..."@
}

proof fn lemma_hits_told(hits: Seq<HitModel>, n: int) -> (places: Seq<int>)
    requires
        0 <= n <= hits.len(),
    ensures
        places.len() == n,
        forall|i: int|
            0 <= i < n ==> hit_told(
                with_hits(Seq::empty(), hits, n),
                #[trigger] places[i],
                hits[i],
            ),
        forall|i: int, j: int|
            0 <= i < j < n ==> #[trigger] places[i] + (if hits[i].snippet.len() > 0 {
                1int
            } else {
                0
            }) < #[trigger] places[j],
        with_hits(Seq::empty(), hits, n).len() == (if n == 0 {
            0int
        } else {
            places[n - 1] + (if hits[n - 1].snippet.len() > 0 {
                2int
            } else {
                1
            })
        }),
    decreases n,
{
    if n <= 0 {
        Seq::empty()
    } else {
        let rest = lemma_hits_told(hits, n - 1);
        let old_lines = with_hits(Seq::empty(), hits, n - 1);
        let new_lines = with_hits(Seq::empty(), hits, n);
        let places = rest.push(old_lines.len() as int);
        assert forall|i: int| 0 <= i < n implies hit_told(new_lines, #[trigger] places[i], hits[i]) by {
            if i < n - 1 {
                assert(hit_told(old_lines, rest[i], hits[i]));
                assert(new_lines[rest[i]] == old_lines[rest[i]]);
                if hits[i].snippet.len() > 0 {
                    assert(new_lines[rest[i] + 1] == old_lines[rest[i] + 1]);
                }
            }
        }
        assert forall|i: int, j: int| 0 <= i < j < n implies #[trigger] places[i] + (
        if hits[i].snippet.len() > 0 {
            1int
        } else {
            0
        }) < #[trigger] places[j] by {
            if j == n - 1 {
                assert(hit_told(old_lines, rest[i], hits[i]));
            } else {
                assert(places[i] == rest[i] && places[j] == rest[j]);
            }
        }
        places
    }
}

/// A search tells every hit in its order: its date and path, and what was found where that is
/// shown. Without hits it says so, and names the term.
pub proof fn law_every_hit_is_told(term: Seq<char>, hits: Seq<HitModel>) -> (places: Seq<int>)
    ensures
        hits.len() == 0 ==> search_report(term, hits) == seq!["no matches for '"@ + term + "'"@],
        places.len() == hits.len(),
        forall|i: int|
            0 <= i < hits.len() ==> hit_told(
                search_report(term, hits),
                #[trigger] places[i],
                hits[i],
            ),
        forall|i: int, j: int|
            0 <= i < j < hits.len() ==> #[trigger] places[i] < #[trigger] places[j],
{
    lemma_hits_told(hits, hits.len() as int)
}

// ---------------------------------------------------------------------------
// Open loops

proof fn lemma_loops_told(loops: Seq<DanglingModel>, n: int)
    requires
        0 <= n <= loops.len(),
    ensures
        with_loops(Seq::empty(), loops, n).len() == 2 * n,
        forall|i: int|
            0 <= i < n ==> loop_told(
                with_loops(Seq::empty(), loops, n),
                i,
                #[trigger] loops[i],
            ),
    decreases n,
{
    if n > 0 {
        lemma_loops_told(loops, n - 1);
        let old_lines = with_loops(Seq::empty(), loops, n - 1);
        let new_lines = with_loops(Seq::empty(), loops, n);
        assert forall|i: int| 0 <= i < n implies loop_told(new_lines, i, #[trigger] loops[i]) by {
            if i < n - 1 {
                assert(loop_told(old_lines, i, loops[i]));
                assert(new_lines[2 * i] == old_lines[2 * i]);
                assert(new_lines[2 * i + 1] == old_lines[2 * i + 1]);
            }
        }
    }
}

/// Whether the two lines on loop `i` tell its age and text, and when and where it was first seen
/// and how often.
pub open spec fn loop_told(report: Seq<Seq<char>>, i: int, item: DanglingModel) -> bool {
    let age = match item.age_days {
        Some(d) => decimal_int(d as int) + "d"@,
        None => "?"@,
    };
    let since = match item.first_seen {
        Some(d) => d,
        None => ""@,
    };
    let often = if item.sightings > 1 {
        "  (seen "@ + decimal_int(item.sightings) + "x)"@
    } else {
        ""@
    };
    &&& 2 * i + 1 < report.len()
    &&& report[2 * i] == pad_left(age, 5) + "  "@ + short_loop(item.text)
    &&& report[2 * i + 1] == "       "@ + since + "  "@ + item.note_path + often
}

/// Every open loop is told in its order, and how many there are.
pub proof fn law_every_loop_is_told(loops: Seq<DanglingModel>)
    ensures
        loops.len() == 0 ==> dangling_report(loops) == seq!["no open loops found"@],
        loops.len() > 0 ==> {
            &&& dangling_report(loops).len() == 2 * loops.len() + 2
            &&& dangling_report(loops).last() == decimal(loops.len()) + " open loops"@
            &&& forall|i: int|
                0 <= i < loops.len() ==> loop_told(dangling_report(loops), i, #[trigger] loops[i])
        },
{
    let n = loops.len() as int;
    lemma_loops_told(loops, n);
    let told = with_loops(Seq::empty(), loops, n);
    let report = dangling_report(loops);
    if n > 0 {
        assert forall|i: int| 0 <= i < n implies loop_told(report, i, #[trigger] loops[i]) by {
            assert(loop_told(told, i, loops[i]));
            assert(report[2 * i] == told[2 * i]);
            assert(report[2 * i + 1] == told[2 * i + 1]);
        }
    }
}

proof fn lemma_matches_told(lines: Seq<Seq<char>>, matching: Seq<OpenLoopModel>, n: int)
    requires
        0 <= n <= matching.len(),
    ensures
        with_matches(lines, matching, n) == lines + Seq::new(
            n as nat,
            |i: int|
                "  - "@ + (if matching[i].text.len() > 90 {
                    matching[i].text.take(90)
                } else {
                    matching[i].text
                }),
        ),
    decreases n,
{
    if n > 0 {
        lemma_matches_told(lines, matching, n - 1);
    }
    assert(with_matches(lines, matching, n) =~= lines + Seq::new(
        n as nat,
        |i: int|
            "  - "@ + (if matching[i].text.len() > 90 {
                matching[i].text.take(90)
            } else {
                matching[i].text
            }),
    ));
}

/// Where a pattern does not single out a loop, the first ten that match are told, and how many
/// there are.
pub proof fn law_unclear_patterns_are_told(pattern: Seq<char>, matching: Seq<OpenLoopModel>)
    ensures
        matching.len() == 0 ==> unclear_report(pattern, matching) == seq![
            "no open loop matches '"@ + pattern + "'"@,
        ],
        matching.len() > 0 ==> {
            let report = unclear_report(pattern, matching);
            &&& report.len() == 1 + (if matching.len() < 10 {
                matching.len() as int
            } else {
                10
            })
            &&& report[0] == "'"@ + pattern + "' matches "@ + decimal(matching.len())
                + " loops; be more specific:"@
            &&& forall|i: int|
                0 <= i < report.len() - 1 && (#[trigger] matching[i]).text.len() <= 90
                    ==> report[i + 1] == "  - "@ + matching[i].text
        },
{
    if matching.len() > 0 {
        let n = if matching.len() < 10 {
            matching.len() as int
        } else {
            10
        };
        lemma_matches_told(
            seq![
                "'"@ + pattern + "' matches "@ + decimal(matching.len())
                    + " loops; be more specific:"@,
            ],
            matching,
            n,
        );
    }
}

// ---------------------------------------------------------------------------
// Why

/// Whether the line at a place tells of an edge, and the next one why it is there, if that is
/// known.
pub open spec fn fact_told(
    report: Seq<Seq<char>>,
    p: int,
    fact: FactModel,
    weight: Seq<char>,
) -> bool {
    &&& 0 < p < report.len()
    &&& report[p] == "  "@ + weight + "  "@ + pad_right(fact.provenance, 8) + " "@ + pad_right(
        fact.relation,
        9,
    ) + " "@ + source_label(fact.from, fact.from_kind)
    &&& fact.rationale matches Some(r) ==> p + 1 < report.len() && report[p + 1]
        == "           "@ + r
}

proof fn lemma_facts_told(
    head: Seq<char>,
    facts: Seq<FactModel>,
    weights: Seq<Seq<char>>,
    n: int,
) -> (places: Seq<int>)
    requires
        0 <= n <= facts.len(),
    ensures
        places.len() == n,
        with_facts(seq![head], facts, weights, n).len() >= 1,
        with_facts(seq![head], facts, weights, n)[0] == head,
        forall|i: int|
            0 <= i < n ==> fact_told(
                with_facts(seq![head], facts, weights, n),
                #[trigger] places[i],
                facts[i],
                weights[i],
            ),
        forall|i: int, j: int|
            0 <= i < j < n ==> #[trigger] places[i] < #[trigger] places[j],
    decreases n,
{
    if n <= 0 {
        Seq::empty()
    } else {
        let rest = lemma_facts_told(head, facts, weights, n - 1);
        let old_lines = with_facts(seq![head], facts, weights, n - 1);
        let new_lines = with_facts(seq![head], facts, weights, n);
        let places = rest.push(old_lines.len() as int);
        assert(new_lines[0] == old_lines[0]);
        assert forall|i: int| 0 <= i < n implies fact_told(
            new_lines,
            #[trigger] places[i],
            facts[i],
            weights[i],
        ) by {
            if i < n - 1 {
                assert(fact_told(old_lines, rest[i], facts[i], weights[i]));
                assert(new_lines[rest[i]] == old_lines[rest[i]]);
                if facts[i].rationale is Some {
                    assert(new_lines[rest[i] + 1] == old_lines[rest[i] + 1]);
                }
            }
        }
        assert forall|i: int, j: int| 0 <= i < j < n implies #[trigger] places[i]
            < #[trigger] places[j] by {
            assert(places[i] == rest[i]);
            assert(fact_told(old_lines, rest[i], facts[i], weights[i]));
            if j < n - 1 {
                assert(places[j] == rest[j]);
            }
        }
        places
    }
}

/// Every edge is told in its order, with its weight, who wrote it, what it says and where it
/// starts, and why it is there; and how many edges there are.
pub proof fn law_every_edge_is_told(
    name: Seq<char>,
    facts: Seq<FactModel>,
    weights: Seq<Seq<char>>,
    least: Seq<char>,
) -> (places: Seq<int>)
    ensures
        facts.len() == 0 ==> why_report(name, facts, weights, least) == seq![
            "no edges point at '"@ + name + "' above weight "@ + least,
        ],
        facts.len() > 0 ==> why_report(name, facts, weights, least)[0] == name + " ("@ + decimal(
            facts.len(),
        ) + " edges)"@,
        places.len() == facts.len(),
        forall|i: int|
            0 <= i < facts.len() ==> fact_told(
                why_report(name, facts, weights, least),
                #[trigger] places[i],
                facts[i],
                weights[i],
            ),
        forall|i: int, j: int|
            0 <= i < j < facts.len() ==> #[trigger] places[i] < #[trigger] places[j],
{
    lemma_facts_told(
        name + " ("@ + decimal(facts.len()) + " edges)"@,
        facts,
        weights,
        facts.len() as int,
    )
}

// ---------------------------------------------------------------------------
// About

proof fn lemma_commits_told(
    lines: Seq<Seq<char>>,
    commits: Seq<(Seq<char>, Seq<char>)>,
    n: int,
)
    requires
        0 <= n <= commits.len(),
    ensures
        with_commits(lines, commits, n) == lines + Seq::new(
            n as nat,
            |i: int| "  "@ + commits[i].0 + "  "@ + commits[i].1,
        ),
    decreases n,
{
    if n > 0 {
        lemma_commits_told(lines, commits, n - 1);
    }
    assert(with_commits(lines, commits, n) =~= lines + Seq::new(
        n as nat,
        |i: int| "  "@ + commits[i].0 + "  "@ + commits[i].1,
    ));
}

proof fn lemma_refs_told(lines: Seq<Seq<char>>, notes: Seq<NoteRefModel>, n: int)
    requires
        0 <= n <= notes.len(),
    ensures
        with_note_refs(lines, notes, n) == lines + Seq::new(
            n as nat,
            |i: int| "  "@ + date_column(notes[i].note_date) + "  "@ + notes[i].path,
        ),
    decreases n,
{
    if n > 0 {
        lemma_refs_told(lines, notes, n - 1);
    }
    assert(with_note_refs(lines, notes, n) =~= lines + Seq::new(
        n as nat,
        |i: int| "  "@ + date_column(notes[i].note_date) + "  "@ + notes[i].path,
    ));
}

proof fn lemma_co_mentions_told(lines: Seq<Seq<char>>, list: Seq<CoMentionModel>, n: int)
    requires
        0 <= n <= list.len(),
    ensures
        with_co_mentions(lines, list, n) == lines + Seq::new(
            n as nat,
            |i: int|
                "  "@ + pad_left(decimal_int(list[i].shared_notes), 3) + "x  "@ + list[i].name
                    + " ("@ + list[i].kind + ")"@,
        ),
    decreases n,
{
    if n > 0 {
        lemma_co_mentions_told(lines, list, n - 1);
    }
    assert(with_co_mentions(lines, list, n) =~= lines + Seq::new(
        n as nat,
        |i: int|
            "  "@ + pad_left(decimal_int(list[i].shared_notes), 3) + "x  "@ + list[i].name + " ("@
                + list[i].kind + ")"@,
    ));
}

/// The lines on where a symbol is defined.
pub open spec fn place_block(place: Option<(Seq<char>, Seq<char>)>) -> Seq<Seq<char>> {
    match place {
        Some(p) => seq![""@, "  defined in: "@ + p.0 + "/"@ + p.1],
        None => Seq::empty(),
    }
}

/// The lines on git metadata: the branch, and the first five commits.
pub open spec fn git_block(git: Option<GitSummaryModel>) -> Seq<Seq<char>> {
    match git {
        Some(g) => (match g.branch {
            Some(branch) => seq![""@, "  branch: "@ + branch],
            None => Seq::empty(),
        }) + Seq::new(
            if g.commits.len() < 5 {
                g.commits.len()
            } else {
                5
            },
            |i: int| "  "@ + g.commits[i].0 + "  "@ + g.commits[i].1,
        ),
        None => Seq::empty(),
    }
}

/// The lines on notes: how many there are, and the first fifteen.
pub open spec fn notes_block(notes: Seq<NoteRefModel>) -> Seq<Seq<char>> {
    if notes.len() == 0 {
        Seq::empty()
    } else {
        seq![""@, "notes ("@ + decimal(notes.len()) + "):"@] + Seq::new(
            if notes.len() < 15 {
                notes.len()
            } else {
                15
            },
            |i: int| "  "@ + date_column(notes[i].note_date) + "  "@ + notes[i].path,
        )
    }
}

/// The lines on what is mentioned together: all of it.
pub open spec fn company_block(list: Seq<CoMentionModel>) -> Seq<Seq<char>> {
    if list.len() == 0 {
        Seq::empty()
    } else {
        seq![""@, "co-mentioned:"@] + Seq::new(
            list.len(),
            |i: int|
                "  "@ + pad_left(decimal_int(list[i].shared_notes), 3) + "x  "@ + list[i].name
                    + " ("@ + list[i].kind + ")"@,
        )
    }
}

proof fn lemma_place_told(head: Seq<Seq<char>>, place: Option<(Seq<char>, Seq<char>)>)
    ensures
        head + place_block(place) == (match place {
            Some(p) => head.push(""@).push("  defined in: "@ + p.0 + "/"@ + p.1),
            None => head,
        }),
{
    if let Some(p) = place {
        let last = "  defined in: "@ + p.0 + "/"@ + p.1;
        assert(head + seq![""@, last] =~= head.push(""@).push(last));
    } else {
        assert(head + place_block(place) =~= head);
    }
}

proof fn lemma_git_told(defined: Seq<Seq<char>>, git: Option<GitSummaryModel>)
    ensures
        defined + git_block(git) == (match git {
            Some(g) => with_git(defined, g),
            None => defined,
        }),
{
    if let Some(g) = git {
        let n = if g.commits.len() < 5 {
            g.commits.len() as int
        } else {
            5
        };
        let rows = Seq::new(n as nat, |i: int| "  "@ + g.commits[i].0 + "  "@ + g.commits[i].1);
        let first = match g.branch {
            Some(branch) => seq![""@, "  branch: "@ + branch],
            None => Seq::empty(),
        };
        let before = match g.branch {
            Some(branch) => defined.push(""@).push("  branch: "@ + branch),
            None => defined,
        };
        lemma_commits_told(before, g.commits, n);
        assert(before =~= defined + first);
        assert(git_block(git) == first + rows);
        assert(before + rows =~= defined + (first + rows));
    } else {
        assert(defined + git_block(git) =~= defined);
    }
}

proof fn lemma_notes_told(versioned: Seq<Seq<char>>, notes: Seq<NoteRefModel>)
    ensures
        versioned + notes_block(notes) == (if notes.len() > 0 {
            with_note_refs(
                versioned.push(""@).push("notes ("@ + decimal(notes.len()) + "):"@),
                notes,
                if notes.len() < 15 {
                    notes.len() as int
                } else {
                    15
                },
            )
        } else {
            versioned
        }),
{
    if notes.len() > 0 {
        let n = if notes.len() < 15 {
            notes.len() as int
        } else {
            15
        };
        let heading = "notes ("@ + decimal(notes.len()) + "):"@;
        let rows = Seq::new(
            n as nat,
            |i: int| "  "@ + date_column(notes[i].note_date) + "  "@ + notes[i].path,
        );
        let before = versioned.push(""@).push(heading);
        lemma_refs_told(before, notes, n);
        assert(notes_block(notes) == seq![""@, heading] + rows);
        assert(before + rows =~= versioned + (seq![""@, heading] + rows));
    } else {
        assert(versioned + notes_block(notes) =~= versioned);
    }
}

proof fn lemma_company_told(noted: Seq<Seq<char>>, list: Seq<CoMentionModel>)
    ensures
        noted + company_block(list) == (if list.len() > 0 {
            with_co_mentions(
                noted.push(""@).push("co-mentioned:"@),
                list,
                list.len() as int,
            )
        } else {
            noted
        }),
{
    if list.len() > 0 {
        let before = noted.push(""@).push("co-mentioned:"@);
        let rows = Seq::new(
            list.len(),
            |i: int|
                "  "@ + pad_left(decimal_int(list[i].shared_notes), 3) + "x  "@ + list[i].name
                    + " ("@ + list[i].kind + ")"@,
        );
        lemma_co_mentions_told(before, list, list.len() as int);
        assert(company_block(list) == seq![""@, "co-mentioned:"@] + rows);
        assert(before + rows =~= noted + (seq![""@, "co-mentioned:"@] + rows));
    } else {
        assert(noted + company_block(list) =~= noted);
    }
}

/// What is known about a project or entity is told in this order: its name and kind, where it is
/// defined, its git state, the notes that mention it, and what it is mentioned with.
pub proof fn law_all_that_is_known_is_told(
    m: AboutModel,
    place: Option<(Seq<char>, Seq<char>)>,
    git: Option<GitSummaryModel>,
)
    ensures
        about_report(m, place, git) == seq![m.name + " ("@ + m.kind + ")"@] + place_block(place)
            + git_block(git) + notes_block(m.notes) + company_block(m.co_mentioned),
{
    let head = seq![m.name + " ("@ + m.kind + ")"@];
    lemma_place_told(head, place);
    let defined = head + place_block(place);
    lemma_git_told(defined, git);
    let versioned = defined + git_block(git);
    lemma_notes_told(versioned, m.notes);
    lemma_company_told(versioned + notes_block(m.notes), m.co_mentioned);
}

// ---------------------------------------------------------------------------
// Connections

/// The line on a pair: its score, both names with their kinds, and in how many notes over how many
/// days they met.
pub open spec fn pair_told(p: PairModel, score: Seq<char>) -> Seq<char> {
    "  "@ + score + "  "@ + p.a + " ("@ + p.a_kind + ") <-> "@ + p.b + " ("@ + p.b_kind + ")  ["@
        + decimal_int(p.shared_notes) + " notes over "@ + decimal_int(p.span_days) + " days]"@
}

/// The line on two projects: on how many days both were committed to.
pub open spec fn days_told(p: TemporalModel) -> Seq<char> {
    "  "@ + pad_left(decimal_int(p.shared_days), 2) + " days  "@ + p.a + " <-> "@ + p.b
}

proof fn lemma_pairs_told(
    lines: Seq<Seq<char>>,
    pairs: Seq<PairModel>,
    scores: Seq<Seq<char>>,
    n: int,
)
    requires
        0 <= n <= pairs.len(),
    ensures
        with_pairs(lines, pairs, scores, n) == lines + Seq::new(
            n as nat,
            |i: int| pair_told(pairs[i], scores[i]),
        ),
    decreases n,
{
    if n > 0 {
        lemma_pairs_told(lines, pairs, scores, n - 1);
    }
    assert(with_pairs(lines, pairs, scores, n) =~= lines + Seq::new(
        n as nat,
        |i: int| pair_told(pairs[i], scores[i]),
    ));
}

proof fn lemma_temporal_told(lines: Seq<Seq<char>>, pairs: Seq<TemporalModel>, n: int)
    requires
        0 <= n <= pairs.len(),
    ensures
        with_temporal(lines, pairs, n) == lines + Seq::new(n as nat, |i: int| days_told(pairs[i])),
    decreases n,
{
    if n > 0 {
        lemma_temporal_told(lines, pairs, n - 1);
    }
    assert(with_temporal(lines, pairs, n) =~= lines + Seq::new(
        n as nat,
        |i: int| days_told(pairs[i]),
    ));
}

/// Every connection is told in its order, first those of notes and then those of commits.
pub proof fn law_every_connection_is_told(m: ConnectionsModel, scores: Seq<Seq<char>>)
    ensures
        m.co_mentions.len() == 0 && m.temporal.len() == 0 ==> connect_report(m, scores) == seq![
            "no connections above the threshold (try --min 2)"@,
        ],
        m.co_mentions.len() > 0 || m.temporal.len() > 0 ==> connect_report(m, scores) == (
        if m.co_mentions.len() > 0 {
            seq!["keep showing up together:"@] + Seq::new(
                m.co_mentions.len(),
                |i: int| pair_told(m.co_mentions[i], scores[i]),
            )
        } else {
            Seq::empty()
        }) + (if m.temporal.len() > 0 {
            seq![""@, "commits travel together:"@] + Seq::new(
                m.temporal.len(),
                |i: int| days_told(m.temporal[i]),
            )
        } else {
            Seq::empty()
        }),
{
    let head = seq!["keep showing up together:"@];
    lemma_pairs_told(head, m.co_mentions, scores, m.co_mentions.len() as int);
    let paired = if m.co_mentions.len() > 0 {
        with_pairs(head, m.co_mentions, scores, m.co_mentions.len() as int)
    } else {
        Seq::empty()
    };
    let before = paired.push(""@).push("commits travel together:"@);
    lemma_temporal_told(before, m.temporal, m.temporal.len() as int);
    let days = Seq::new(m.temporal.len(), |i: int| days_told(m.temporal[i]));
    assert(before + days =~= paired + (seq![""@, "commits travel together:"@] + days));
    assert(paired + Seq::<Seq<char>>::empty() =~= paired);
}

// ---------------------------------------------------------------------------
// Publishing

proof fn lemma_plan_notes_told(lines: Seq<Seq<char>>, notes: Seq<PlanNoteModel>, n: int)
    requires
        0 <= n <= notes.len(),
    ensures
        with_plan_notes(lines, notes, n) == lines + Seq::new(
            n as nat,
            |i: int| "  "@ + date_column(notes[i].note_date) + "  "@ + notes[i].path,
        ),
    decreases n,
{
    if n > 0 {
        lemma_plan_notes_told(lines, notes, n - 1);
    }
    assert(with_plan_notes(lines, notes, n) =~= lines + Seq::new(
        n as nat,
        |i: int| "  "@ + date_column(notes[i].note_date) + "  "@ + notes[i].path,
    ));
}

proof fn lemma_plan_projects_told(lines: Seq<Seq<char>>, projects: Seq<PlanProjectModel>, n: int)
    requires
        0 <= n <= projects.len(),
    ensures
        with_plan_projects(lines, projects, n) == lines + Seq::new(
            n as nat,
            |i: int| "  "@ + projects[i].name,
        ),
    decreases n,
{
    if n > 0 {
        lemma_plan_projects_told(lines, projects, n - 1);
    }
    assert(with_plan_projects(lines, projects, n) =~= lines + Seq::new(
        n as nat,
        |i: int| "  "@ + projects[i].name,
    ));
}

proof fn lemma_plan_entities_told(lines: Seq<Seq<char>>, entities: Seq<PlanEntityModel>, n: int)
    requires
        0 <= n <= entities.len(),
    ensures
        with_plan_entities(lines, entities, n) == lines + Seq::new(
            n as nat,
            |i: int| "  "@ + entities[i].name,
        ),
    decreases n,
{
    if n > 0 {
        lemma_plan_entities_told(lines, entities, n - 1);
    }
    assert(with_plan_entities(lines, entities, n) =~= lines + Seq::new(
        n as nat,
        |i: int| "  "@ + entities[i].name,
    ));
}

proof fn lemma_plan_loops_told(lines: Seq<Seq<char>>, loops: Seq<PlanLoopModel>, n: int)
    requires
        0 <= n <= loops.len(),
    ensures
        with_plan_loops(lines, loops, n) == lines + Seq::new(
            n as nat,
            |i: int| "  "@ + loops[i].text + "  ("@ + loops[i].note_path + ")"@,
        ),
    decreases n,
{
    if n > 0 {
        lemma_plan_loops_told(lines, loops, n - 1);
    }
    assert(with_plan_loops(lines, loops, n) =~= lines + Seq::new(
        n as nat,
        |i: int| "  "@ + loops[i].text + "  ("@ + loops[i].note_path + ")"@,
    ));
}

/// The lines on flags, two for each: why, and in which note.
pub open spec fn flag_lines(flags: Seq<PlanFlagModel>, n: int) -> Seq<Seq<char>> {
    Seq::new(
        (2 * n) as nat,
        |k: int|
            if k % 2 == 0 {
                "  "@ + flags[k / 2].reason
            } else {
                "    in "@ + flags[k / 2].note_path
            },
    )
}

proof fn lemma_plan_flags_told(lines: Seq<Seq<char>>, flags: Seq<PlanFlagModel>, n: int)
    requires
        0 <= n <= flags.len(),
    ensures
        with_plan_flags(lines, flags, n) == lines + flag_lines(flags, n),
    decreases n,
{
    if n > 0 {
        lemma_plan_flags_told(lines, flags, n - 1);
        assert(flag_lines(flags, n) =~= flag_lines(flags, n - 1).push(
            "  "@ + flags[n - 1].reason,
        ).push("    in "@ + flags[n - 1].note_path));
    }
    assert(with_plan_flags(lines, flags, n) =~= lines + flag_lines(flags, n));
}

/// A block of lines under a heading, where there is anything to put there.
pub open spec fn headed(heading: Seq<char>, block: Seq<Seq<char>>) -> Seq<Seq<char>> {
    if block.len() == 0 {
        Seq::empty()
    } else {
        seq![""@, heading] + block
    }
}

proof fn lemma_headed(lines: Seq<Seq<char>>, heading: Seq<char>, block: Seq<Seq<char>>)
    ensures
        lines.push(""@).push(heading) + block == lines + (seq![""@, heading] + block),
        lines + Seq::<Seq<char>>::empty() == lines,
{
    assert(lines.push(""@).push(heading) + block =~= lines + (seq![""@, heading] + block));
    assert(lines + Seq::<Seq<char>>::empty() =~= lines);
}

/// The audit says how much of each kind would be published, and tells every note, project, entity
/// and loop that would, and every link that needs a decision.
pub proof fn law_all_that_would_be_published_is_told(m: PlanModel)
    ensures
        audit_report(m) == seq![
            "would publish: "@ + decimal(m.notes.len()) + " notes, "@ + decimal(m.projects.len())
                + " projects, "@ + decimal(m.entities.len()) + " entities, "@ + decimal(
                m.loops.len(),
            ) + " loops, "@ + decimal(m.edges.len()) + " edges"@,
        ] + headed(
            "notes:"@,
            Seq::new(
                m.notes.len(),
                |i: int| "  "@ + date_column(m.notes[i].note_date) + "  "@ + m.notes[i].path,
            ),
        ) + headed("projects:"@, Seq::new(m.projects.len(), |i: int| "  "@ + m.projects[i].name))
            + headed(
            "entities:"@,
            Seq::new(m.entities.len(), |i: int| "  "@ + m.entities[i].name),
        ) + headed(
            "open loops:"@,
            Seq::new(
                m.loops.len(),
                |i: int| "  "@ + m.loops[i].text + "  ("@ + m.loops[i].note_path + ")"@,
            ),
        ) + headed(
            "FLAGS - need a decision before emit:"@,
            flag_lines(m.flags, m.flags.len() as int),
        ),
{
    let head = seq![crate::report::plan_text(m)];
    let notes = Seq::new(
        m.notes.len(),
        |i: int| "  "@ + date_column(m.notes[i].note_date) + "  "@ + m.notes[i].path,
    );
    let projects = Seq::new(m.projects.len(), |i: int| "  "@ + m.projects[i].name);
    let entities = Seq::new(m.entities.len(), |i: int| "  "@ + m.entities[i].name);
    let loops = Seq::new(
        m.loops.len(),
        |i: int| "  "@ + m.loops[i].text + "  ("@ + m.loops[i].note_path + ")"@,
    );
    let flags = flag_lines(m.flags, m.flags.len() as int);
    let a = head + headed("notes:"@, notes);
    lemma_headed(head, "notes:"@, notes);
    lemma_plan_notes_told(head.push(""@).push("notes:"@), m.notes, m.notes.len() as int);
    let b = a + headed("projects:"@, projects);
    lemma_headed(a, "projects:"@, projects);
    lemma_plan_projects_told(a.push(""@).push("projects:"@), m.projects, m.projects.len() as int);
    assert(audit_sources(head, m) == b);
    let c = b + headed("entities:"@, entities);
    lemma_headed(b, "entities:"@, entities);
    lemma_plan_entities_told(b.push(""@).push("entities:"@), m.entities, m.entities.len() as int);
    let d = c + headed("open loops:"@, loops);
    lemma_headed(c, "open loops:"@, loops);
    lemma_plan_loops_told(c.push(""@).push("open loops:"@), m.loops, m.loops.len() as int);
    let e = "FLAGS - need a decision before emit:"@;
    lemma_headed(d, e, flags);
    lemma_plan_flags_told(d.push(""@).push(e), m.flags, m.flags.len() as int);
}

// ---------------------------------------------------------------------------
// Status

/// Whether the line at a place tells the state of a source, and the next one what is wrong with it,
/// if anything is.
pub open spec fn source_told(report: Seq<Seq<char>>, p: int, s: SourceStatusModel) -> bool {
    &&& 0 <= p < report.len()
    &&& report[p] == "  "@ + pad_right(s.kind, 9) + " "@ + (if s.healthy {
        "ok   "@
    } else {
        "error"@
    }) + " "@ + s.path
    &&& s.error matches Some(error) ==> p + 1 < report.len() && report[p + 1]
        == "                  "@ + error
}

proof fn lemma_sources_told(lines: Seq<Seq<char>>, sources: Seq<SourceStatusModel>, n: int) -> (places:
    Seq<int>)
    requires
        0 <= n <= sources.len(),
    ensures
        places.len() == n,
        with_sources(lines, sources, n).len() >= lines.len(),
        with_sources(lines, sources, n).take(lines.len() as int) == lines,
        forall|i: int|
            0 <= i < n ==> lines.len() <= #[trigger] places[i] && source_told(
                with_sources(lines, sources, n),
                places[i],
                sources[i],
            ),
        forall|i: int, j: int|
            0 <= i < j < n ==> #[trigger] places[i] < #[trigger] places[j],
    decreases n,
{
    if n <= 0 {
        assert(with_sources(lines, sources, n).take(lines.len() as int) =~= lines);
        Seq::empty()
    } else {
        let rest = lemma_sources_told(lines, sources, n - 1);
        let old_lines = with_sources(lines, sources, n - 1);
        let new_lines = with_sources(lines, sources, n);
        let places = rest.push(old_lines.len() as int);
        reveal_strlit("ok");
        reveal_strlit("ok   ");
        reveal_strlit("error");
        assert(pad_right("ok"@, 5) =~= "ok   "@);
        assert(pad_right("error"@, 5) =~= "error"@);
        assert(new_lines.take(lines.len() as int) =~= old_lines.take(lines.len() as int));
        assert forall|i: int| 0 <= i < n implies lines.len() <= #[trigger] places[i] && source_told(
            new_lines,
            places[i],
            sources[i],
        ) by {
            if i < n - 1 {
                assert(places[i] == rest[i]);
                assert(source_told(old_lines, rest[i], sources[i]));
                assert(new_lines[rest[i]] == old_lines[rest[i]]);
                if sources[i].error is Some {
                    assert(new_lines[rest[i] + 1] == old_lines[rest[i] + 1]);
                }
            }
        }
        assert forall|i: int, j: int| 0 <= i < j < n implies #[trigger] places[i]
            < #[trigger] places[j] by {
            assert(places[i] == rest[i]);
            assert(source_told(old_lines, rest[i], sources[i]));
            if j < n - 1 {
                assert(places[j] == rest[j]);
            }
        }
        places
    }
}

/// The state of the index is told with what was counted or what is wrong, and then the state of
/// every source.
pub proof fn law_every_source_is_told(m: StatusModel) -> (places: Seq<int>)
    ensures
        status_report(m)[0] == "index:        "@ + (if m.healthy {
            "healthy"@
        } else if !m.indexed {
            "missing"@
        } else {
            "needs attention"@
        }),
        status_report(m)[1] == "database:     "@ + m.database,
        m.counts matches Some(c) ==> status_report(m).contains(
            "graph:        "@ + decimal_int(c.notes as int) + " notes, "@ + decimal_int(
                c.projects as int,
            ) + " projects, "@ + decimal_int(c.entities as int) + " entities, "@ + decimal_int(
                c.loops as int,
            ) + " loops, "@ + decimal_int(c.edges as int) + " edges"@,
        ),
        m.error matches Some(error) ==> status_report(m).contains("error:        "@ + error),
        places.len() == m.sources.len(),
        forall|i: int|
            0 <= i < places.len() ==> source_told(
                status_report(m),
                #[trigger] places[i],
                m.sources[i],
            ),
        forall|i: int, j: int|
            0 <= i < j < places.len() ==> #[trigger] places[i] < #[trigger] places[j],
{
    let head = index_lines(m).push("sources:"@);
    let places = lemma_sources_told(head, m.sources, m.sources.len() as int);
    let report = status_report(m);
    assert(report[0] == report.take(head.len() as int)[0]);
    assert(report[1] == report.take(head.len() as int)[1]);
    if let Some(c) = m.counts {
        assert(report[4] == report.take(head.len() as int)[4]);
    }
    if let Some(error) = m.error {
        let k = head.len() - 2;
        assert(report[k] == report.take(head.len() as int)[k]);
        assert(report[k] == "error:        "@ + error);
    }
    places
}

/// What a rebuild counted is told, and what was reused of git metadata where there was any.
pub proof fn law_rebuilds_are_told(stats: IndexStats)
    ensures
        rebuild_report(stats)[0] == "indexed "@ + decimal(stats.notes as nat) + " notes, "@
            + decimal(stats.projects as nat) + " projects, "@ + decimal(stats.entities as nat)
            + " entities, "@ + decimal(stats.loops as nat) + " loops, "@ + decimal(
            stats.edges as nat,
        ) + " edges"@,
        stats.git_cached == 0 && stats.git_refreshed == 0 ==> rebuild_report(stats).len() == 1,
        stats.git_cached > 0 || stats.git_refreshed > 0 ==> rebuild_report(stats).len() == 2
            && rebuild_report(stats)[1] == "git: "@ + decimal(stats.git_refreshed as nat)
            + " refreshed, "@ + decimal(stats.git_cached as nat) + " reused from cache"@,
{
}

/// A loop that was marked done is told with every note that changed; where none did, that is told.
pub proof fn law_done_loops_are_told(text: Seq<char>, changed: Seq<Seq<char>>)
    ensures
        changed.len() == 0 ==> done_report(text, changed) == seq![
            "loop found in the index but not in the notes; run `raft index`"@,
        ],
        changed.len() > 0 ==> {
            &&& done_report(text, changed).len() == changed.len() + 1
            &&& done_report(text, changed)[0] == "done: "@ + text
            &&& forall|i: int|
                0 <= i < changed.len() ==> done_report(text, changed)[i + 1] == "  updated "@
                    + #[trigger] changed[i]
        },
{
}

} // verus!
