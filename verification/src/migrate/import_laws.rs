//! What an import brings over: every colour and key that the configuration
//! names, and nothing else.
use vstd::prelude::*;

use crate::migrate::colors::parsed_color;
use crate::migrate::colors::slot_name;
use crate::migrate::colors::Color;
use crate::migrate::colors::SemanticSlots;
use crate::migrate::colors::ThemeSlot;
use crate::migrate::import::first_text;
use crate::migrate::import::home_context;
use crate::migrate::import::key_aliases;
use crate::migrate::import::key_order;
use crate::migrate::import::keys_of;
use crate::migrate::import::keys_start;
use crate::migrate::import::slot_aliases;
use crate::migrate::import::slot_order;
use crate::migrate::import::theme_of;
use crate::migrate::import::theme_start;
use crate::migrate::import::unclaimed;
use crate::migrate::import::BindingModel;
use crate::migrate::import::ColorSearch;
use crate::migrate::import::KeysModel;
use crate::migrate::import::ThemeModel;
use crate::registry::chord::parsed_chord;
use crate::registry::command::context_name;
use crate::registry::command::name_of;
use crate::registry::command::Action;
use crate::text::debug_quoted;
use crate::toml_text::text_under;
use crate::toml_text::LineModel;

verus! {

/// The colour in a slot.
pub open spec fn color_in(slots: SemanticSlots, slot: ThemeSlot) -> Option<Color> {
    match slot {
        ThemeSlot::Bg => slots.bg,
        ThemeSlot::Fg => slots.fg,
        ThemeSlot::Accent => slots.accent,
        ThemeSlot::LinkVisited => slots.link_visited,
        ThemeSlot::Match => slots.match_fg,
        ThemeSlot::Dim => slots.dim,
    }
}

/// The table gives this colour under the spelling.
pub open spec fn gives_color(lines: Seq<LineModel>, alias: Seq<char>, c: Color) -> bool {
    text_under(lines, alias) is Some && parsed_color(text_under(lines, alias)->0) == Some(c)
}

/// The table gives no colour under the spelling.
pub open spec fn gives_no_color(lines: Seq<LineModel>, alias: Seq<char>) -> bool {
    text_under(lines, alias) is None || parsed_color(text_under(lines, alias)->0) is None
}

proof fn lemma_search(s: ColorSearch, lines: Seq<LineModel>, aliases: Seq<Seq<char>>)
    requires
        s.hit is None,
    ensures
        match s.attempts(lines, aliases).hit {
            Some((alias, c)) => exists|k: int|
                {
                    &&& 0 <= k < aliases.len()
                    &&& #[trigger] aliases[k] == alias
                    &&& gives_color(lines, alias, c)
                    &&& forall|j: int| 0 <= j < k ==> gives_no_color(lines, #[trigger] aliases[j])
                },
            None => forall|j: int|
                0 <= j < aliases.len() ==> gives_no_color(lines, #[trigger] aliases[j]),
        },
    decreases aliases.len(),
{
    if aliases.len() > 0 {
        let front = aliases.drop_last();
        lemma_search(s, lines, front);
        let before = s.attempts(lines, front);
        let last = aliases.len() - 1;
        assert forall|j: int| 0 <= j < last implies aliases[j] == front[j] by {}
        match before.hit {
            Some((alias, c)) => {
                let k = choose|k: int|
                    {
                        &&& 0 <= k < front.len()
                        &&& #[trigger] front[k] == alias
                        &&& gives_color(lines, alias, c)
                        &&& forall|j: int|
                            0 <= j < k ==> gives_no_color(lines, #[trigger] front[j])
                    };
                assert(aliases[k] == alias);
                assert forall|j: int| 0 <= j < k implies gives_no_color(
                    lines,
                    #[trigger] aliases[j],
                ) by {
                    assert(front[j] == aliases[j]);
                }
            },
            None => {
                assert forall|j: int| 0 <= j < last implies gives_no_color(
                    lines,
                    #[trigger] aliases[j],
                ) by {
                    assert(front[j] == aliases[j]);
                }
                assert(aliases[last] == aliases.last());
            },
        }
    }
}

/// The slot is one of the first `n` that are filled.
spec fn done(slot: ThemeSlot, n: int) -> bool {
    exists|i: int| 0 <= i < n && #[trigger] slot_order()[i] == slot
}

/// What a slot holds once it was looked for.
pub open spec fn holds_its_color(m: ThemeModel, lines: Seq<LineModel>, slot: ThemeSlot) -> bool {
    let aliases = slot_aliases(slot);
    match color_in(m.slots, slot) {
        Some(c) => exists|k: int|
            {
                &&& 0 <= k < aliases.len()
                &&& gives_color(lines, #[trigger] aliases[k], c)
                &&& forall|j: int| 0 <= j < k ==> gives_no_color(lines, #[trigger] aliases[j])
                &&& m.mapped.contains((slot_name(slot), aliases[k]))
            },
        None => forall|j: int|
            0 <= j < aliases.len() ==> gives_no_color(lines, #[trigger] aliases[j]),
    }
}

proof fn lemma_slot(m: ThemeModel, lines: Seq<LineModel>, slot: ThemeSlot, other: ThemeSlot)
    requires
        color_in(m.slots, slot) is None,
    ensures
        holds_its_color(m.slot(lines, slot), lines, slot),
        other != slot ==> color_in(m.slot(lines, slot).slots, other) == color_in(m.slots, other),
        other != slot && holds_its_color(m, lines, other) ==> holds_its_color(
            m.slot(lines, slot),
            lines,
            other,
        ),
{
    let aliases = slot_aliases(slot);
    let start = ColorSearch { claimed: m.claimed, hit: None };
    lemma_search(start, lines, aliases);
    let after = m.slot(lines, slot);
    match start.attempts(lines, aliases).hit {
        Some((alias, c)) => {
            let k = choose|k: int|
                {
                    &&& 0 <= k < aliases.len()
                    &&& #[trigger] aliases[k] == alias
                    &&& gives_color(lines, alias, c)
                    &&& forall|j: int|
                        0 <= j < k ==> gives_no_color(lines, #[trigger] aliases[j])
                };
            assert(after.mapped[m.mapped.len() as int] == (slot_name(slot), aliases[k]));
            assert(after.mapped.contains((slot_name(slot), aliases[k])));
            assert(color_in(after.slots, slot) == Some(c));
        },
        None => {},
    }
    if other != slot && holds_its_color(m, lines, other) {
        let names = slot_aliases(other);
        if let Some(c) = color_in(m.slots, other) {
            let k = choose|k: int|
                {
                    &&& 0 <= k < names.len()
                    &&& gives_color(lines, #[trigger] names[k], c)
                    &&& forall|j: int| 0 <= j < k ==> gives_no_color(lines, #[trigger] names[j])
                    &&& m.mapped.contains((slot_name(other), names[k]))
                };
            let at = m.mapped.index_of((slot_name(other), names[k]));
            assert(after.mapped[at] == (slot_name(other), names[k]));
        }
    }
}

#[verifier::spinoff_prover]
#[verifier::rlimit(40)]
proof fn lemma_slots(lines: Seq<LineModel>, n: int)
    requires
        0 <= n <= 6,
    ensures
        ({
            let m = theme_start().slots(lines, slot_order().take(n));
            &&& forall|slot: ThemeSlot|
                #[trigger] done(slot, n) ==> holds_its_color(m, lines, slot)
            &&& forall|slot: ThemeSlot|
                !(#[trigger] done(slot, n)) ==> color_in(m.slots, slot) is None
            &&& m.slots.link == m.slots.accent
            &&& m.slots.heading == m.slots.accent
            &&& m.slots.quote is None
            &&& m.slots.code is None
            &&& m.slots.warning is None
            &&& m.slots.error is None
        }),
    decreases n,
{
    let order = slot_order();
    if n == 0 {
        assert(order.take(0) =~= Seq::empty());
        assert forall|slot: ThemeSlot| !(#[trigger] done(slot, 0)) by {}
    } else {
        lemma_slots(lines, n - 1);
        let before = theme_start().slots(lines, order.take(n - 1));
        let m = theme_start().slots(lines, order.take(n));
        let slot = order[n - 1];
        assert(order.take(n).drop_last() =~= order.take(n - 1));
        assert(order.take(n).last() == slot);
        assert(!done(slot, n - 1)) by {
            if done(slot, n - 1) {
                let i = choose|i: int| 0 <= i < n - 1 && #[trigger] order[i] == slot;
                assert(order[i] != order[n - 1]);
            }
        }
        assert forall|other: ThemeSlot| #[trigger] done(other, n) implies holds_its_color(
            m,
            lines,
            other,
        ) by {
            lemma_slot(before, lines, slot, other);
            if other != slot {
                let i = choose|i: int| 0 <= i < n && #[trigger] order[i] == other;
                assert(i < n - 1);
                assert(done(other, n - 1));
            }
        }
        assert forall|other: ThemeSlot| !(#[trigger] done(other, n)) implies color_in(
            m.slots,
            other,
        ) is None by {
            lemma_slot(before, lines, slot, other);
            assert(order[n - 1] == slot);
            assert(other != slot);
            if done(other, n - 1) {
                let i = choose|i: int| 0 <= i < n - 1 && #[trigger] order[i] == other;
                assert(order[i] == other);
            }
        }
        if slot == ThemeSlot::Accent {
            assert(!done(ThemeSlot::Accent, n - 1));
            assert(color_in(before.slots, ThemeSlot::Accent) is None);
        }
    }
}

/// A slot takes the colour of the first of its spellings that gives one, and
/// is reported with that spelling; it stays empty where none does. Links and
/// headings take the accent's colour, and what no spelling names stays empty.
pub proof fn each_slot_takes_its_first_color(lines: Seq<LineModel>, slot: ThemeSlot)
    ensures
        holds_its_color(theme_of(Some(lines)), lines, slot),
        ({
            let slots = theme_of(Some(lines)).slots;
            &&& slots.link == slots.accent
            &&& slots.heading == slots.accent
            &&& slots.quote is None
            &&& slots.code is None
            &&& slots.warning is None
            &&& slots.error is None
        }),
{
    lemma_slots(lines, 6);
    let order = slot_order();
    assert(order.take(6) =~= order);
    let i: int = match slot {
        ThemeSlot::Bg => 0,
        ThemeSlot::Fg => 1,
        ThemeSlot::Accent => 2,
        ThemeSlot::LinkVisited => 3,
        ThemeSlot::Match => 4,
        ThemeSlot::Dim => 5,
    };
    assert(order[i] == slot);
    assert(done(slot, 6));
}

/// The table holds a text under spelling `k`, and none under those before.
pub open spec fn is_first_text(lines: Seq<LineModel>, aliases: Seq<Seq<char>>, k: int) -> bool {
    &&& 0 <= k < aliases.len()
    &&& text_under(lines, aliases[k]) is Some
    &&& forall|j: int| 0 <= j < k ==> text_under(lines, #[trigger] aliases[j]) is None
}

proof fn lemma_first_text(lines: Seq<LineModel>, aliases: Seq<Seq<char>>)
    ensures
        match first_text(lines, aliases) {
            Some((alias, raw)) => exists|k: int|
                #[trigger] is_first_text(lines, aliases, k) && aliases[k] == alias && text_under(
                    lines,
                    alias,
                ) == Some(raw),
            None => forall|j: int|
                0 <= j < aliases.len() ==> text_under(lines, #[trigger] aliases[j]) is None,
        },
    decreases aliases.len(),
{
    if aliases.len() > 0 {
        let rest = aliases.drop_first();
        lemma_first_text(lines, rest);
        if text_under(lines, aliases[0]) is Some {
            assert(is_first_text(lines, aliases, 0));
        } else {
            assert forall|j: int| 0 < j < aliases.len() implies aliases[j] == rest[j - 1] by {}
            match first_text(lines, aliases) {
                Some((alias, raw)) => {
                    let k = choose|k: int|
                        #[trigger] is_first_text(lines, rest, k) && rest[k] == alias
                            && text_under(lines, alias) == Some(raw);
                    assert(is_first_text(lines, aliases, k + 1)) by {
                        assert forall|j: int| 0 <= j < k + 1 implies text_under(
                            lines,
                            #[trigger] aliases[j],
                        ) is None by {
                            if j > 0 {
                                assert(rest[j - 1] == aliases[j]);
                            }
                        }
                    }
                },
                None => {
                    assert forall|j: int| 0 <= j < aliases.len() implies text_under(
                        lines,
                        #[trigger] aliases[j],
                    ) is None by {
                        if j > 0 {
                            assert(rest[j - 1] == aliases[j]);
                        }
                    }
                },
            }
        }
    }
}

/// There is one first text at most.
proof fn lemma_one_first(lines: Seq<LineModel>, aliases: Seq<Seq<char>>, j: int, k: int)
    requires
        is_first_text(lines, aliases, j),
        is_first_text(lines, aliases, k),
    ensures
        j == k,
{
    if j < k {
        assert(text_under(lines, aliases[j]) is None);
    } else if k < j {
        assert(text_under(lines, aliases[k]) is None);
    }
}

/// The binding that spelling `k` of a command gives.
pub open spec fn binding_of(lines: Seq<LineModel>, a: Action, k: int) -> BindingModel {
    BindingModel {
        context: context_name(home_context(a)),
        key: text_under(lines, key_aliases(a)[k])->0,
        action_name: name_of(a),
        from_wikitui_key: key_aliases(a)[k],
    }
}

proof fn lemma_kept(m: KeysModel, lines: Seq<LineModel>, order: Seq<Action>, i: int, k: int)
    requires
        0 <= i < order.len(),
        is_first_text(lines, key_aliases(order[i]), k),
    ensures
        ({
            let out = m.commands(lines, order);
            let alias = key_aliases(order[i])[k];
            let raw = text_under(lines, alias)->0;
            &&& out.claimed.contains(alias)
            &&& parsed_chord(raw) is Some ==> out.bindings.contains(
                binding_of(lines, order[i], k),
            )
            &&& parsed_chord(raw) is None ==> out.bad_keys.contains(
                alias + " = "@ + debug_quoted(raw) + " (unrecognized key syntax)"@,
            )
        }),
    decreases order.len(),
{
    let front = order.drop_last();
    let before = m.commands(lines, front);
    let out = m.commands(lines, order);
    let last = order.len() - 1;
    let a = order[i];
    let alias = key_aliases(a)[k];
    let raw = text_under(lines, alias)->0;
    assert(order.last() == order[last]);
    if i == last {
        lemma_first_text(lines, key_aliases(a));
        match first_text(lines, key_aliases(a)) {
            Some((found, text)) => {
                let n = choose|n: int|
                    #[trigger] is_first_text(lines, key_aliases(a), n) && key_aliases(a)[n]
                        == found && text_under(lines, found) == Some(text);
                lemma_one_first(lines, key_aliases(a), n, k);
                assert(out.claimed[before.claimed.len() as int] == alias);
                if parsed_chord(raw) is Some {
                    assert(out.bindings[before.bindings.len() as int] == binding_of(lines, a, k));
                } else {
                    assert(out.bad_keys[before.bad_keys.len() as int] == alias + " = "@
                        + debug_quoted(raw) + " (unrecognized key syntax)"@);
                }
            },
            None => {
                assert(text_under(lines, key_aliases(a)[k]) is None);
            },
        }
    } else {
        assert(front[i] == a);
        lemma_kept(m, lines, front, i, k);
        let at = before.claimed.index_of(alias);
        assert(out.claimed[at] == alias);
        if parsed_chord(raw) is Some {
            let b = binding_of(lines, a, k);
            let at = before.bindings.index_of(b);
            assert(out.bindings[at] == b);
        } else {
            let text = alias + " = "@ + debug_quoted(raw) + " (unrecognized key syntax)"@;
            let at = before.bad_keys.index_of(text);
            assert(out.bad_keys[at] == text);
        }
    }
}

/// A command takes the key under the first of its spellings that the table
/// uses: its binding is brought over, or, where the text is no key, it is
/// reported. That spelling is not among the keys left over.
pub proof fn each_command_takes_its_first_key(lines: Seq<LineModel>, i: int, k: int)
    requires
        0 <= i < key_order().len(),
        is_first_text(lines, key_aliases(key_order()[i]), k),
    ensures
        ({
            let keys = keys_of(Some(lines));
            let a = key_order()[i];
            let alias = key_aliases(a)[k];
            let raw = text_under(lines, alias)->0;
            &&& parsed_chord(raw) is Some ==> keys.bindings.contains(binding_of(lines, a, k))
            &&& parsed_chord(raw) is None ==> keys.bad_keys.contains(
                alias + " = "@ + debug_quoted(raw) + " (unrecognized key syntax)"@,
            )
            &&& !unclaimed(lines, keys.claimed).contains(alias)
        }),
{
    lemma_kept(keys_start(), lines, key_order(), i, k);
    let alias = key_aliases(key_order()[i])[k];
    lemma_unclaimed(lines, keys_of(Some(lines)).claimed, alias);
}

/// A key that was used is not left over.
proof fn lemma_unclaimed(lines: Seq<LineModel>, claimed: Seq<Seq<char>>, key: Seq<char>)
    requires
        claimed.contains(key),
    ensures
        !unclaimed(lines, claimed).contains(key),
    decreases lines.len(),
{
    if lines.len() > 0 {
        let front = lines.drop_last();
        lemma_unclaimed(front, claimed, key);
        let all = unclaimed(lines, claimed);
        if all.contains(key) {
            let at = all.index_of(key);
            let before = unclaimed(front, claimed);
            if at < before.len() {
                assert(before[at] == key);
                assert(before.contains(key));
            }
        }
    }
}

proof fn lemma_sound(m: KeysModel, lines: Seq<LineModel>, order: Seq<Action>, n: int) -> (r: (
    int,
    int,
))
    requires
        m.bindings.len() <= n < m.commands(lines, order).bindings.len(),
    ensures
        0 <= r.0 < order.len(),
        is_first_text(lines, key_aliases(order[r.0]), r.1),
        m.commands(lines, order).bindings[n] == binding_of(lines, order[r.0], r.1),
        parsed_chord(m.commands(lines, order).bindings[n].key) is Some,
    decreases order.len(),
{
    let front = order.drop_last();
    let before = m.commands(lines, front);
    let last = order.len() - 1;
    if n < before.bindings.len() {
        let (i, k) = lemma_sound(m, lines, front, n);
        assert(front[i] == order[i]);
        (i, k)
    } else {
        let a = order[last];
        assert(order.last() == a);
        lemma_first_text(lines, key_aliases(a));
        let (found, text) = first_text(lines, key_aliases(a))->0;
        let k = choose|k: int|
            #[trigger] is_first_text(lines, key_aliases(a), k) && key_aliases(a)[k] == found
                && text_under(lines, found) == Some(text);
        (last, k)
    }
}

/// Every binding that is brought over is that of a command, from the first of
/// its spellings that the table uses.
pub proof fn every_binding_was_asked_for(lines: Seq<LineModel>, n: int) -> (r: (int, int))
    requires
        0 <= n < keys_of(Some(lines)).bindings.len(),
    ensures
        0 <= r.0 < key_order().len(),
        is_first_text(lines, key_aliases(key_order()[r.0]), r.1),
        keys_of(Some(lines)).bindings[n] == binding_of(lines, key_order()[r.0], r.1),
        parsed_chord(keys_of(Some(lines)).bindings[n].key) is Some,
{
    lemma_sound(keys_start(), lines, key_order(), n)
}

} // verus!
