//! What a user's keymap file decides.
use vstd::prelude::*;

use crate::registry::chord::leader_char;
use crate::registry::chord::parsed_chord;
use crate::registry::chord::Chord;
use crate::registry::command::action_named;
use crate::registry::command::context_named;
use crate::registry::command::Action;
use crate::registry::command::KeyContext;
use crate::registry::keymap::slot;
use crate::registry::keymap::KeymapModel;
use crate::registry::user_file::applied;
use crate::registry::user_file::untouched;
use crate::registry::user_file::Applied;
use crate::toml_text::EntryModel;
use crate::toml_text::LineModel;
use crate::toml_text::ValueModel;

verus! {

/// The line binds the chord: its key is the chord, and its text names a
/// command.
pub open spec fn binds(line: LineModel, chord: Chord) -> bool {
    &&& parsed_chord(line.key) == Some(chord)
    &&& line.text is Some
    &&& action_named(line.text->0) is Some
}

/// The command that a line names.
pub open spec fn command_of(line: LineModel) -> Action {
    action_named(line.text->0)->0
}

/// Line `l` is the last that binds the chord.
pub open spec fn is_last(lines: Seq<LineModel>, chord: Chord, l: int) -> bool {
    &&& 0 <= l < lines.len()
    &&& binds(lines[l], chord)
    &&& forall|k: int| l < k < lines.len() ==> !binds(#[trigger] lines[k], chord)
}

/// No line binds the chord.
pub open spec fn none_binds(lines: Seq<LineModel>, chord: Chord) -> bool {
    forall|k: int| 0 <= k < lines.len() ==> !binds(#[trigger] lines[k], chord)
}

/// The entry is a context's table.
pub open spec fn is_table_of(e: EntryModel, ctx: KeyContext) -> bool {
    &&& e.key != "leader-key"@
    &&& e.key != "leader"@
    &&& context_named(e.key) == Some(ctx)
    &&& e.value is Table
}

/// The entry is the leader table.
pub open spec fn is_leader_table(e: EntryModel) -> bool {
    e.key == "leader"@ && e.value is Table
}

proof fn lemma_context_lines(
    a: Applied,
    section: Seq<char>,
    ctx: KeyContext,
    lines: Seq<LineModel>,
    other: KeyContext,
    chord: Chord,
)
    ensures
        ({
            let before = a.map.overrides.get(slot(other, chord));
            let after = a.context_lines(section, ctx, lines).map.overrides.get(slot(other, chord));
            &&& other != ctx || none_binds(lines, chord) ==> after == before
            &&& forall|l: int| #[trigger]
                is_last(lines, chord, l) && other == ctx ==> after == Some(command_of(lines[l]))
        }),
        a.context_lines(section, ctx, lines).map.leader == a.map.leader,
        a.context_lines(section, ctx, lines).map.leader_key == a.map.leader_key,
    decreases lines.len(),
{
    if lines.len() > 0 {
        let front = lines.drop_last();
        let last = lines.len() - 1;
        lemma_context_lines(a, section, ctx, front, other, chord);
        assert(lines.last() == lines[last]);
        let mid = a.context_lines(section, ctx, front);
        let end = a.context_lines(section, ctx, lines);
        if none_binds(lines, chord) {
            assert(none_binds(front, chord)) by {
                assert forall|k: int| 0 <= k < front.len() implies !binds(
                    #[trigger] front[k],
                    chord,
                ) by {
                    assert(front[k] == lines[k]);
                }
            }
            assert(!binds(lines[last], chord));
        }
        assert forall|l: int| #[trigger] is_last(lines, chord, l) && other == ctx implies
            end.map.overrides.get(slot(other, chord)) == Some(command_of(lines[l])) by {
            if l < last {
                assert(!binds(lines[last], chord));
                assert(is_last(front, chord, l)) by {
                    assert(front[l] == lines[l]);
                    assert forall|k: int| l < k < front.len() implies !binds(
                        #[trigger] front[k],
                        chord,
                    ) by {
                        assert(front[k] == lines[k]);
                    }
                }
            }
        }
    }
}

proof fn lemma_leader_lines(a: Applied, lines: Seq<LineModel>, chord: Chord)
    ensures
        ({
            let after = a.leader_lines(lines).map.leader.get(chord);
            &&& none_binds(lines, chord) ==> after == a.map.leader.get(chord)
            &&& forall|l: int| #[trigger]
                is_last(lines, chord, l) ==> after == Some(command_of(lines[l]))
        }),
        a.leader_lines(lines).map.overrides == a.map.overrides,
        a.leader_lines(lines).map.leader_key == a.map.leader_key,
    decreases lines.len(),
{
    if lines.len() > 0 {
        let front = lines.drop_last();
        let last = lines.len() - 1;
        lemma_leader_lines(a, front, chord);
        assert(lines.last() == lines[last]);
        let end = a.leader_lines(lines);
        if none_binds(lines, chord) {
            assert(none_binds(front, chord)) by {
                assert forall|k: int| 0 <= k < front.len() implies !binds(
                    #[trigger] front[k],
                    chord,
                ) by {
                    assert(front[k] == lines[k]);
                }
            }
            assert(!binds(lines[last], chord));
        }
        assert forall|l: int| #[trigger] is_last(lines, chord, l) implies end.map.leader.get(chord)
            == Some(command_of(lines[l])) by {
            if l < last {
                assert(!binds(lines[last], chord));
                assert(is_last(front, chord, l)) by {
                    assert(front[l] == lines[l]);
                    assert forall|k: int| l < k < front.len() implies !binds(
                        #[trigger] front[k],
                        chord,
                    ) by {
                        assert(front[k] == lines[k]);
                    }
                }
            }
        }
    }
}

/// No entry from `from` on binds the chord in the context.
pub open spec fn none_sets(es: Seq<EntryModel>, from: int, ctx: KeyContext, chord: Chord) -> bool {
    forall|e: int|
        from <= e < es.len() && is_table_of(#[trigger] es[e], ctx) ==> none_binds(
            es[e].value->Table_0,
            chord,
        )
}

/// No entry from `from` on binds the chord in the leader space.
pub open spec fn none_leads(es: Seq<EntryModel>, from: int, chord: Chord) -> bool {
    forall|e: int|
        from <= e < es.len() && is_leader_table(#[trigger] es[e]) ==> none_binds(
            es[e].value->Table_0,
            chord,
        )
}

proof fn lemma_entry(a: Applied, e: EntryModel, ctx: KeyContext, chord: Chord)
    ensures
        ({
            let b = a.entry(e);
            let at = slot(ctx, chord);
            &&& !is_table_of(e, ctx) || none_binds(e.value->Table_0, chord)
                ==> b.map.overrides.get(at) == a.map.overrides.get(at)
            &&& is_table_of(e, ctx) ==> forall|l: int| #[trigger]
                is_last(e.value->Table_0, chord, l) ==> b.map.overrides.get(at) == Some(
                    command_of(e.value->Table_0[l]),
                )
            &&& !is_leader_table(e) || none_binds(e.value->Table_0, chord)
                ==> b.map.leader.get(chord) == a.map.leader.get(chord)
            &&& is_leader_table(e) ==> forall|l: int| #[trigger]
                is_last(e.value->Table_0, chord, l) ==> b.map.leader.get(chord) == Some(
                    command_of(e.value->Table_0[l]),
                )
        }),
{
    reveal_strlit("leader-key");
    reveal_strlit("leader");
    assert("leader-key"@.len() != "leader"@.len());
    match e.value {
        ValueModel::Table(lines) => {
            lemma_leader_lines(a, lines, chord);
            match context_named(e.key) {
                Some(c) => lemma_context_lines(a, e.key, c, lines, ctx, chord),
                None => {},
            }
        },
        _ => {},
    }
}

proof fn lemma_entries(a: Applied, es: Seq<EntryModel>, e: int, ctx: KeyContext, chord: Chord)
    requires
        0 <= e <= es.len(),
    ensures
        ({
            let b = a.entries(es);
            let mid = a.entries(es.take(e));
            let at = slot(ctx, chord);
            &&& none_sets(es, e, ctx, chord) ==> b.map.overrides.get(at)
                == mid.map.overrides.get(at)
            &&& none_leads(es, e, chord) ==> b.map.leader.get(chord) == mid.map.leader.get(chord)
        }),
    decreases es.len(),
{
    if e == es.len() {
        assert(es.take(e) =~= es);
    } else {
        let front = es.drop_last();
        lemma_entries(a, front, e, ctx, chord);
        assert(front.take(e) =~= es.take(e));
        let last = es.len() - 1;
        lemma_entry(a.entries(front), es[last], ctx, chord);
        assert(es.last() == es[last]);
        if none_sets(es, e, ctx, chord) {
            assert(none_sets(front, e, ctx, chord)) by {
                assert forall|k: int|
                    e <= k < front.len() && is_table_of(#[trigger] front[k], ctx) implies none_binds(
                    front[k].value->Table_0,
                    chord,
                ) by {
                    assert(front[k] == es[k]);
                }
            }
        }
        if none_leads(es, e, chord) {
            assert(none_leads(front, e, chord)) by {
                assert forall|k: int|
                    e <= k < front.len() && is_leader_table(#[trigger] front[k]) implies none_binds(
                    front[k].value->Table_0,
                    chord,
                ) by {
                    assert(front[k] == es[k]);
                }
            }
        }
    }
}

/// The last line of a file that binds a chord in a view decides what the chord
/// does there, whatever the preset binds.
pub proof fn the_last_line_decides(
    map: KeymapModel,
    es: Seq<EntryModel>,
    ctx: KeyContext,
    chord: Chord,
    e: int,
    l: int,
)
    requires
        0 <= e < es.len(),
        is_table_of(es[e], ctx),
        is_last(es[e].value->Table_0, chord, l),
        none_sets(es, e + 1, ctx, chord),
    ensures
        applied(map, es).map.resolved(ctx, chord) == Some(command_of(es[e].value->Table_0[l])),
{
    let a = untouched(map);
    lemma_entries(a, es, e + 1, ctx, chord);
    assert(es.take(e + 1).drop_last() =~= es.take(e));
    assert(es.take(e + 1).last() == es[e]);
    lemma_entry(a.entries(es.take(e)), es[e], ctx, chord);
    let b = applied(map, es).map;
    assert(b.overrides.get(slot(ctx, chord)) == Some(command_of(es[e].value->Table_0[l])));
}

/// A chord that no line of a file binds in a view is bound there as before.
pub proof fn what_no_line_binds_stays(
    map: KeymapModel,
    es: Seq<EntryModel>,
    ctx: KeyContext,
    chord: Chord,
)
    requires
        none_sets(es, 0, ctx, chord),
        none_sets(es, 0, KeyContext::Global, chord),
    ensures
        applied(map, es).map.resolved(ctx, chord) == map.resolved(ctx, chord),
{
    let a = untouched(map);
    lemma_entries(a, es, 0, ctx, chord);
    lemma_entries(a, es, 0, KeyContext::Global, chord);
    assert(es.take(0) =~= Seq::empty());
    crate::registry::user_file::files_keep_the_preset(map, es);
}

/// The last line of a file's leader table that binds a chord decides what it
/// does after the leader key; a chord that none binds does what it did.
pub proof fn the_last_leader_line_decides(
    map: KeymapModel,
    es: Seq<EntryModel>,
    chord: Chord,
    e: int,
    l: int,
)
    requires
        none_leads(
            es,
            if 0 <= e < es.len() {
                e + 1
            } else {
                0
            },
            chord,
        ),
        0 <= e < es.len() ==> is_leader_table(es[e]) && is_last(es[e].value->Table_0, chord, l),
    ensures
        applied(map, es).map.leader.get(chord) == (if 0 <= e < es.len() {
            Some(command_of(es[e].value->Table_0[l]))
        } else {
            map.leader.get(chord)
        }),
{
    let a = untouched(map);
    let ctx = KeyContext::Global;
    if 0 <= e < es.len() {
        lemma_entries(a, es, e + 1, ctx, chord);
        assert(es.take(e + 1).drop_last() =~= es.take(e));
        assert(es.take(e + 1).last() == es[e]);
        lemma_entry(a.entries(es.take(e)), es[e], ctx, chord);
    } else {
        lemma_entries(a, es, 0, ctx, chord);
        assert(es.take(0) =~= Seq::empty());
    }
}

/// The entry sets the leader key.
pub open spec fn sets_leader(e: EntryModel) -> bool {
    e.key == "leader-key"@ && (e.value matches ValueModel::Text(t) && leader_char(t) is Some)
}

/// The last entry that gives a single character as the leader key decides it;
/// where none does it stays.
pub proof fn the_last_leader_key_decides(map: KeymapModel, es: Seq<EntryModel>, e: int)
    requires
        -1 <= e < es.len(),
        e >= 0 ==> sets_leader(es[e]),
        forall|k: int| e < k < es.len() ==> !sets_leader(#[trigger] es[k]),
    ensures
        applied(map, es).map.leader_key == (if e >= 0 {
            leader_char(es[e].value->Text_0)->0
        } else {
            map.leader_key
        }),
    decreases es.len(),
{
    if es.len() > 0 {
        let a = untouched(map);
        let front = es.drop_last();
        let last = es.len() - 1;
        assert(es.last() == es[last]);
        let mid = a.entries(front);
        reveal_strlit("leader-key");
        reveal_strlit("leader");
        assert("leader-key"@.len() != "leader"@.len());
        if !sets_leader(es[last]) {
            let x = es[last];
            match x.value {
                ValueModel::Table(lines) => {
                    let any = crate::registry::chord::plain_chord(
                        crate::registry::chord::ChordCode::Esc,
                    );
                    lemma_leader_lines(mid, lines, any);
                    match context_named(x.key) {
                        Some(c) => lemma_context_lines(mid, x.key, c, lines, c, any),
                        None => {},
                    }
                },
                _ => {},
            }
            if e >= 0 {
                assert(front[e] == es[e]);
            }
            assert forall|k: int| e < k < front.len() implies !sets_leader(
                #[trigger] front[k],
            ) by {
                assert(front[k] == es[k]);
            }
            the_last_leader_key_decides(map, front, e);
        } else {
            assert(e == last);
        }
    }
}

/// The line can be applied.
pub open spec fn is_sound_line(line: LineModel) -> bool {
    &&& parsed_chord(line.key) is Some
    &&& line.text is Some
    &&& action_named(line.text->0) is Some
}

/// The entry can be applied, every line of it.
pub open spec fn is_sound(e: EntryModel) -> bool {
    if e.key == "leader-key"@ {
        sets_leader(e)
    } else {
        &&& e.key == "leader"@ || context_named(e.key) is Some
        &&& e.value is Table
        &&& forall|k: int|
            0 <= k < e.value->Table_0.len() ==> is_sound_line(#[trigger] e.value->Table_0[k])
    }
}

proof fn lemma_warnings(a: Applied, section: Seq<char>, ctx: KeyContext, lines: Seq<LineModel>)
    ensures
        a.context_lines(section, ctx, lines).warnings.len() >= a.warnings.len(),
        a.leader_lines(lines).warnings.len() >= a.warnings.len(),
        a.context_lines(section, ctx, lines).warnings.len() == a.warnings.len() <==> (forall|
            k: int,
        |
            0 <= k < lines.len() ==> is_sound_line(#[trigger] lines[k])),
        a.leader_lines(lines).warnings.len() == a.warnings.len() <==> (forall|k: int|
            0 <= k < lines.len() ==> is_sound_line(#[trigger] lines[k])),
    decreases lines.len(),
{
    if lines.len() > 0 {
        let front = lines.drop_last();
        let last = lines.len() - 1;
        lemma_warnings(a, section, ctx, front);
        assert(lines.last() == lines[last]);
        assert forall|k: int| 0 <= k < front.len() implies front[k] == lines[k] by {}
        if forall|k: int| 0 <= k < lines.len() ==> is_sound_line(#[trigger] lines[k]) {
            assert forall|k: int| 0 <= k < front.len() implies is_sound_line(
                #[trigger] front[k],
            ) by {
                assert(front[k] == lines[k]);
            }
            assert(is_sound_line(lines[last]));
        } else {
            let k = choose|k: int| 0 <= k < lines.len() && !is_sound_line(#[trigger] lines[k]);
            if k < last {
                assert(!is_sound_line(front[k]));
            }
        }
    }
}

/// A file gives a warning exactly where some entry or some line of it cannot
/// be applied.
pub proof fn only_faults_are_warned_of(map: KeymapModel, es: Seq<EntryModel>)
    ensures
        applied(map, es).warnings.len() == 0 <==> (forall|k: int|
            0 <= k < es.len() ==> is_sound(#[trigger] es[k])),
    decreases es.len(),
{
    if es.len() > 0 {
        let a = untouched(map);
        let front = es.drop_last();
        let last = es.len() - 1;
        only_faults_are_warned_of(map, front);
        assert(es.last() == es[last]);
        let mid = a.entries(front);
        let x = es[last];
        reveal_strlit("leader-key");
        reveal_strlit("leader");
        assert("leader-key"@.len() != "leader"@.len());
        match x.value {
            ValueModel::Table(lines) => {
                let ctx = match context_named(x.key) {
                    Some(c) => c,
                    None => KeyContext::Global,
                };
                lemma_warnings(mid, x.key, ctx, lines);
            },
            _ => {},
        }
        if forall|k: int| 0 <= k < es.len() ==> is_sound(#[trigger] es[k]) {
            assert forall|k: int| 0 <= k < front.len() implies is_sound(#[trigger] front[k]) by {
                assert(front[k] == es[k]);
            }
            assert(is_sound(es[last]));
        } else {
            let k = choose|k: int| 0 <= k < es.len() && !is_sound(#[trigger] es[k]);
            if k < last {
                assert(front[k] == es[k]);
                assert(!is_sound(front[k]));
            }
        }
    } else {
        assert(applied(map, es).warnings =~= Seq::empty());
    }
}

} // verus!
