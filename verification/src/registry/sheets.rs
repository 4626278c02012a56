//! The command palette and the help sheets.
use crate::registry::command::{
    all_actions, applies, display_of, every_action_has_one_row, help_of, meta, offered, table_index,
    table_order, Action, KeyContext,
};
use crate::registry::chord::Chord;
use crate::registry::keymap::{label_line, Keymap, KeymapModel};
use crate::text::{lemma_lex_total, lemma_lex_trans, lex_le, str_le};
use vstd::prelude::*;

verus! {

/// A palette row: the action to run, and what the palette paints.
#[derive(Debug, Clone, PartialEq, Eq)]
pub struct PaletteRow {
    pub action: Action,
    pub display: &'static str,
    pub help: &'static str,
    pub key: String,
}

/// How well a query matches each command of the table, the better the higher;
/// a command without a number does not match.
pub open spec fn rank_of(ranks: Seq<Option<u64>>, a: Action) -> Option<u64> {
    let i = table_index(a);
    if i < ranks.len() {
        ranks[i]
    } else {
        None
    }
}

/// The palette lists an action: it offers it, it applies there, and the query
/// matches it.
pub open spec fn listed(ctx: KeyContext, ranks: Seq<Option<u64>>, a: Action) -> bool {
    offered(a) && applies(a, ctx) && rank_of(ranks, a) is Some
}

/// `a` may stand before `b`: it matches better, or as well with a label that
/// comes no later.
pub open spec fn may_precede(ranks: Seq<Option<u64>>, a: Action, b: Action) -> bool {
    let x = rank_of(ranks, a)->0;
    let y = rank_of(ranks, b)->0;
    x > y || (x == y && lex_le(display_of(a), display_of(b)))
}

/// The text is an action's keys, as [`Keymap::label_for`] writes them.
pub open spec fn keys_text(m: KeymapModel, ctx: KeyContext, a: Action, text: Seq<char>) -> bool {
    exists|chords: Seq<Chord>| #[trigger] m.leads(ctx, a, chords) && text == label_line(chords)
}

spec fn in_order(ranks: Seq<Option<u64>>, list: Seq<Action>) -> bool {
    forall|i: int, j: int|
        0 <= i < j < list.len() ==> may_precede(ranks, #[trigger] list[i], #[trigger] list[j])
}

/// The actions of palette rows.
pub open spec fn row_actions(rows: Seq<PaletteRow>) -> Seq<Action> {
    rows.map_values(|r: PaletteRow| r.action)
}

/// A command that the query matches, with how well.
#[derive(Clone, Copy)]
struct Match {
    rank: u64,
    action: Action,
}

spec fn matched(ranks: Seq<Option<u64>>, list: Seq<Match>) -> bool {
    forall|i: int|
        0 <= i < list.len() ==> rank_of(ranks, (#[trigger] list[i]).action) == Some(list[i].rank)
}

spec fn actions_of(list: Seq<Match>) -> Seq<Action> {
    list.map_values(|m: Match| m.action)
}

fn insert_match(list: &mut Vec<Match>, m: Match, Ghost(ranks): Ghost<Seq<Option<u64>>>)
    requires
        matched(ranks, old(list)@),
        rank_of(ranks, m.action) == Some(m.rank),
        in_order(ranks, actions_of(old(list)@)),
        actions_of(old(list)@).no_duplicates(),
        !actions_of(old(list)@).contains(m.action),
    ensures
        matched(ranks, final(list)@),
        in_order(ranks, actions_of(final(list)@)),
        actions_of(final(list)@).no_duplicates(),
        forall|a: Action| #[trigger]
            actions_of(final(list)@).contains(a) <==> actions_of(old(list)@).contains(a) || a
                == m.action,
{
    let ghost before = actions_of(list@);
    let ghost pre = list@;
    let mut i: usize = list.len();
    while i > 0 && !(list[i - 1].rank > m.rank || (list[i - 1].rank == m.rank && str_le(
        list[i - 1].action.display(),
        m.action.display(),
    )))
        invariant
            list@ == pre,
            before == actions_of(pre),
            matched(ranks, pre),
            rank_of(ranks, m.action) == Some(m.rank),
            i <= list.len(),
            forall|j: int| i <= j < before.len() ==> may_precede(ranks, m.action, #[trigger] before[j]),
        decreases i,
    {
        proof {
            assert(before[i - 1] == pre[i - 1].action);
            lemma_lex_total(display_of(pre[i - 1].action), display_of(m.action));
        }
        i = i - 1;
    }
    list.insert(i, m);
    proof {
        let after = actions_of(list@);
        assert(list@ =~= pre.insert(i as int, m));
        assert(after =~= before.insert(i as int, m.action));
        assert(matched(ranks, list@)) by {
            assert forall|k: int| 0 <= k < list@.len() implies rank_of(
                ranks,
                (#[trigger] list@[k]).action,
            ) == Some(list@[k].rank) by {
                if k < i {
                    assert(list@[k] == pre[k]);
                } else if k > i {
                    assert(list@[k] == pre[k - 1]);
                }
            }
        }
        if i > 0 {
            assert(before[i - 1] == pre[i - 1].action);
            assert(may_precede(ranks, before[i - 1], m.action));
        }
        assert forall|a: int, b: int| 0 <= a < b < after.len() implies may_precede(
            ranks,
            #[trigger] after[a],
            #[trigger] after[b],
        ) by {
            if b == i {
                assert(after[a] == before[a]);
                if a < i - 1 {
                    assert(may_precede(ranks, before[a], before[i - 1]));
                    lemma_precede_trans(ranks, before[a], before[i - 1], m.action);
                }
            } else if a == i {
                assert(after[b] == before[b - 1]);
            } else {
                let x = if a < i { a } else { a - 1 };
                let y = if b < i { b } else { b - 1 };
                assert(after[a] == before[x] && after[b] == before[y]);
            }
        }
        assert forall|a: Action| #[trigger] after.contains(a) <==> before.contains(a) || a
            == m.action by {
            if before.contains(a) {
                let j = before.index_of(a);
                let k = if j < i { j } else { j + 1 };
                assert(after[k] == a);
            }
            if a == m.action {
                assert(after[i as int] == a);
            }
            if after.contains(a) {
                let k = after.index_of(a);
                if k < i {
                    assert(before[k] == a);
                } else if k > i {
                    assert(before[k - 1] == a);
                }
            }
        }
        assert forall|a: int, b: int|
            0 <= a < after.len() && 0 <= b < after.len() && a != b implies after[a] != after[b] by {
            let x = if a < i { a } else { a - 1 };
            let y = if b < i { b } else { b - 1 };
            if a != i && b != i {
                assert(after[a] == before[x] && after[b] == before[y]);
            } else if a == i {
                assert(before.contains(before[y]));
            } else {
                assert(before.contains(before[x]));
            }
        }
    }
}

proof fn lemma_precede_trans(ranks: Seq<Option<u64>>, a: Action, b: Action, c: Action)
    requires
        may_precede(ranks, a, b),
        may_precede(ranks, b, c),
    ensures
        may_precede(ranks, a, c),
{
    if rank_of(ranks, a)->0 == rank_of(ranks, b)->0 && rank_of(ranks, b)->0 == rank_of(ranks, c)->0 {
        lemma_lex_trans(display_of(a), display_of(b), display_of(c));
    }
}

/// The commands that the palette offers in a context, given how well the query
/// matches each command of the table: the best match first, equal matches by
/// their labels, each with its current keys.
pub fn palette_matches(keymap: &Keymap, ctx: KeyContext, ranks: &Vec<Option<u64>>) -> (r: Vec<
    PaletteRow,
>)
    ensures
        row_actions(r@).no_duplicates(),
        forall|a: Action| #[trigger] row_actions(r@).contains(a) <==> listed(ctx, ranks@, a),
        forall|i: int, j: int|
            0 <= i < j < r@.len() ==> may_precede(
                ranks@,
                (#[trigger] r@[i]).action,
                (#[trigger] r@[j]).action,
            ),
        forall|i: int|
            0 <= i < r@.len() ==> {
                let row = #[trigger] r@[i];
                &&& row.display@ == display_of(row.action)
                &&& row.help@ == help_of(row.action)
                &&& keys_text(keymap@, ctx, row.action, row.key@)
            },
{
    let actions = all_actions();
    let n: usize = actions.len();
    let mut list: Vec<Match> = Vec::new();
    proof {
        assert(actions_of(list@) =~= Seq::<Action>::empty());
        assert forall|a: Action| table_index(a) >= 0 by {
            every_action_has_one_row(a);
        }
    }
    for i in 0..n
        invariant
            actions@ == table_order(),
            n == actions.len(),
            matched(ranks@, list@),
            in_order(ranks@, actions_of(list@)),
            actions_of(list@).no_duplicates(),
            forall|a: Action| #[trigger]
                actions_of(list@).contains(a) <==> listed(ctx, ranks@, a) && table_index(a) < i,
    {
        let a = actions[i];
        proof { every_action_has_one_row(a); }
        let rank: Option<u64> = if i < ranks.len() {
            ranks[i]
        } else {
            None
        };
        if let Some(rank) = rank {
            if meta(a).in_palette && a.applies_in(ctx) {
                insert_match(&mut list, Match { rank, action: a }, Ghost(ranks@));
            }
        }
        proof {
            assert forall|b: Action| #[trigger]
                actions_of(list@).contains(b) <==> listed(ctx, ranks@, b) && table_index(b) < i
                + 1 by {
                every_action_has_one_row(b);
            }
        }
    }
    proof {
        assert forall|a: Action| #[trigger] actions_of(list@).contains(a) <==> listed(
            ctx,
            ranks@,
            a,
        ) by {
            every_action_has_one_row(a);
        }
    }
    let m: usize = list.len();
    let mut rows: Vec<PaletteRow> = Vec::new();
    for i in 0..m
        invariant
            m == list.len(),
            rows@.len() == i,
            forall|j: int| 0 <= j < i ==> (#[trigger] rows@[j]).action == list@[j].action,
            forall|j: int|
                0 <= j < i ==> {
                    let row = #[trigger] rows@[j];
                    &&& row.display@ == display_of(row.action)
                    &&& row.help@ == help_of(row.action)
                    &&& keys_text(keymap@, ctx, row.action, row.key@)
                },
    {
        let a = list[i].action;
        rows.push(
            PaletteRow {
                action: a,
                display: a.display(),
                help: a.help(),
                key: keymap.label_for(ctx, a),
            },
        );
    }
    proof {
        assert(row_actions(rows@) =~= actions_of(list@));
        assert forall|i: int, j: int| 0 <= i < j < rows@.len() implies may_precede(
            ranks@,
            (#[trigger] rows@[i]).action,
            (#[trigger] rows@[j]).action,
        ) by {
            assert(actions_of(list@)[i] == rows@[i].action);
            assert(actions_of(list@)[j] == rows@[j].action);
        }
    }
    rows
}

/// The order of the reading view's help sheet.
pub open spec fn reading_sheet() -> Seq<Action> {
    seq![
        Action::ScrollDown,
        Action::HalfPageDown,
        Action::PageDown,
        Action::ScrollTop,
        Action::ScrollBottom,
        Action::ScrollTablesRight,
        Action::LinkCycleNext,
        Action::LinkHints,
        Action::LinkHintsBackground,
        Action::FollowLink,
        Action::OpenBackgroundTab,
        Action::Peek,
        Action::Back,
        Action::Forward,
        Action::BackStackPicker,
        Action::JumpReferences,
        Action::ReadingHistory,
        Action::NextTab,
        Action::PrevTab,
        Action::TabPicker,
        Action::ReopenClosedTab,
        Action::CloseTab,
        Action::Split,
        Action::Toc,
        Action::FoldToggle,
        Action::FoldAll,
        Action::UnfoldAll,
        Action::CycleTheme,
        Action::TalkToggle,
        Action::IncognitoToggle,
        Action::Search,
        Action::FindInPage,
        Action::FindNext,
        Action::CommandLine,
        Action::Palette,
        Action::YankUrl,
        Action::YankMarkdown,
        Action::BookmarkToggle,
        Action::BookmarkPicker,
        Action::Annotate,
        Action::ReadLater,
        Action::Research,
        Action::Library,
        Action::SaveOffline,
        Action::RandomArticle,
        Action::RelatedPanel,
        Action::LangPicker,
        Action::WikiPicker,
        Action::Home,
        Action::Today,
        Action::Info,
        Action::Login,
        Action::Logout,
        Action::WatchToggle,
        Action::WatchlistOpen,
        Action::NotificationsOpen,
        Action::ContribsOpen,
        Action::PrefsOpen,
        Action::PrefetchLogOpen,
        Action::InterestsOpen,
        Action::StatsOpen,
        Action::SessionsList,
        Action::Help,
        Action::Quit,
    ]
}

/// The order of the help sheet that lists share.
pub open spec fn picker_sheet() -> Seq<Action> {
    seq![Action::MoveDown, Action::MoveUp, Action::Select, Action::Help, Action::Close]
}

/// The order of the reading view's help sheet.
pub fn reading_help_order() -> (r: Vec<Action>)
    ensures
        r@ == reading_sheet(),
{
    let out: Vec<Action> = vec![
        Action::ScrollDown,
        Action::HalfPageDown,
        Action::PageDown,
        Action::ScrollTop,
        Action::ScrollBottom,
        Action::ScrollTablesRight,
        Action::LinkCycleNext,
        Action::LinkHints,
        Action::LinkHintsBackground,
        Action::FollowLink,
        Action::OpenBackgroundTab,
        Action::Peek,
        Action::Back,
        Action::Forward,
        Action::BackStackPicker,
        Action::JumpReferences,
        Action::ReadingHistory,
        Action::NextTab,
        Action::PrevTab,
        Action::TabPicker,
        Action::ReopenClosedTab,
        Action::CloseTab,
        Action::Split,
        Action::Toc,
        Action::FoldToggle,
        Action::FoldAll,
        Action::UnfoldAll,
        Action::CycleTheme,
        Action::TalkToggle,
        Action::IncognitoToggle,
        Action::Search,
        Action::FindInPage,
        Action::FindNext,
        Action::CommandLine,
        Action::Palette,
        Action::YankUrl,
        Action::YankMarkdown,
        Action::BookmarkToggle,
        Action::BookmarkPicker,
        Action::Annotate,
        Action::ReadLater,
        Action::Research,
        Action::Library,
        Action::SaveOffline,
        Action::RandomArticle,
        Action::RelatedPanel,
        Action::LangPicker,
        Action::WikiPicker,
        Action::Home,
        Action::Today,
        Action::Info,
        Action::Login,
        Action::Logout,
        Action::WatchToggle,
        Action::WatchlistOpen,
        Action::NotificationsOpen,
        Action::ContribsOpen,
        Action::PrefsOpen,
        Action::PrefetchLogOpen,
        Action::InterestsOpen,
        Action::StatsOpen,
        Action::SessionsList,
        Action::Help,
        Action::Quit,
    ];
    proof { assert(out@ =~= reading_sheet()); }
    out
}

/// A row of a help sheet.
#[derive(Debug, Clone, PartialEq, Eq)]
pub struct HelpRow {
    pub key: String,
    pub help: String,
}

/// The rows are those of a sheet's actions, in order, with their current keys
/// and their help lines.
pub open spec fn sheet_rows(
    m: KeymapModel,
    ctx: KeyContext,
    sheet: Seq<Action>,
    rows: Seq<HelpRow>,
) -> bool {
    &&& rows.len() == sheet.len()
    &&& forall|i: int|
        0 <= i < rows.len() ==> (#[trigger] rows[i]).help@ == help_of(sheet[i]) && keys_text(
            m,
            ctx,
            sheet[i],
            rows[i].key@,
        )
}

fn help_rows(keymap: &Keymap, ctx: KeyContext, sheet: &Vec<Action>) -> (r: Vec<HelpRow>)
    ensures
        sheet_rows(keymap@, ctx, sheet@, r@),
{
    let n: usize = sheet.len();
    let mut out: Vec<HelpRow> = Vec::new();
    for i in 0..n
        invariant
            n == sheet.len(),
            sheet_rows(keymap@, ctx, sheet@.take(i as int), out@),
    {
        out.push(
            HelpRow { key: keymap.label_for(ctx, sheet[i]), help: sheet[i].help().to_owned() },
        );
    }
    proof { assert(sheet@.take(n as int) =~= sheet@); }
    out
}

/// The reading view's help sheet.
pub fn reading_help(keymap: &Keymap) -> (r: Vec<HelpRow>)
    ensures
        sheet_rows(keymap@, KeyContext::Reading, reading_sheet(), r@),
{
    help_rows(keymap, KeyContext::Reading, &reading_help_order())
}

/// The help sheet that lists share.
pub fn picker_help(keymap: &Keymap) -> (r: Vec<HelpRow>)
    ensures
        sheet_rows(keymap@, KeyContext::Picker, picker_sheet(), r@),
{
    let sheet: Vec<Action> = vec![
        Action::MoveDown,
        Action::MoveUp,
        Action::Select,
        Action::Help,
        Action::Close,
    ];
    proof { assert(sheet@ =~= picker_sheet()); }
    help_rows(keymap, KeyContext::Picker, &sheet)
}

} // verus!
