//! The command table: every action the reader can take, with its name, its
//! label, its help line and the views it applies in.
use crate::text::same_str;
use vstd::prelude::*;

verus! {

/// One thing the reader can do. A key, a palette row and a name in a keymap
/// file all lead to an action.
#[derive(Debug, Clone, Copy, PartialEq, Eq, Hash, Structural)]
pub enum Action {
    ScrollDown,
    ScrollUp,
    HalfPageDown,
    HalfPageUp,
    PageDown,
    ScrollTop,
    ScrollBottom,
    ScrollTablesLeft,
    ScrollTablesRight,
    LinkCycleNext,
    LinkCyclePrev,
    LinkHints,
    LinkHintsBackground,
    FollowLink,
    OpenBackgroundTab,
    Back,
    Forward,
    BackStackPicker,
    ReadingHistory,
    NextTab,
    PrevTab,
    TabPicker,
    ReopenClosedTab,
    CloseTab,
    Toc,
    CycleTheme,
    TalkToggle,
    Search,
    CommandLine,
    Help,
    Palette,
    YankUrl,
    YankMarkdown,
    ReadLater,
    Research,
    Library,
    BookmarkToggle,
    BookmarkPicker,
    Annotate,
    FindInPage,
    FindNext,
    FindPrev,
    SaveOffline,
    RandomArticle,
    RelatedPanel,
    LangPicker,
    WikiPicker,
    Home,
    Today,
    Info,
    Login,
    Logout,
    WatchToggle,
    WatchlistOpen,
    NotificationsOpen,
    ContribsOpen,
    PrefsOpen,
    Quit,
    Peek,
    IncognitoToggle,
    FoldToggle,
    FoldAll,
    UnfoldAll,
    JumpReferences,
    Split,
    PrefetchLogOpen,
    InterestsOpen,
    StatsOpen,
    SessionsList,
    MoveDown,
    MoveUp,
    Select,
    Close,
}

/// Where a binding or an action is meaningful. A key is looked up in the view
/// it was pressed in first, then in `Global`.
#[derive(Debug, Clone, Copy, PartialEq, Eq, Hash, Structural)]
pub enum KeyContext {
    /// Everywhere the keymap is consulted.
    Global,
    /// An article is on screen.
    Reading,
    /// The start page, with no article.
    StartPage,
    /// A list to pick from.
    Picker,
    /// The search prompt.
    Search,
}

/// What a keymap file calls a context.
pub open spec fn context_name(ctx: KeyContext) -> Seq<char> {
    match ctx {
        KeyContext::Global => "global"@,
        KeyContext::Reading => "reading"@,
        KeyContext::StartPage => "startpage"@,
        KeyContext::Picker => "picker"@,
        KeyContext::Search => "search"@,
    }
}

/// The context that a keymap file calls `name`.
pub open spec fn context_named(name: Seq<char>) -> Option<KeyContext> {
    if name == "global"@ {
        Some(KeyContext::Global)
    } else if name == "reading"@ {
        Some(KeyContext::Reading)
    } else if name == "startpage"@ {
        Some(KeyContext::StartPage)
    } else if name == "picker"@ {
        Some(KeyContext::Picker)
    } else if name == "search"@ {
        Some(KeyContext::Search)
    } else {
        None
    }
}

/// A context is found again by its own name.
pub proof fn context_names_read_back(ctx: KeyContext)
    ensures
        context_named(context_name(ctx)) == Some(ctx),
{
    reveal_strlit("global");
    reveal_strlit("reading");
    reveal_strlit("startpage");
    reveal_strlit("picker");
    reveal_strlit("search");
    assert("global"@.len() == 6);
    assert("reading"@.len() == 7);
    assert("startpage"@.len() == 9);
    assert("picker"@[0] == 'p');
    assert("search"@[0] == 's');
    assert("global"@[0] == 'g');
}

impl KeyContext {
    /// The context that a keymap file calls `name`.
    pub fn from_toml_name(name: &str) -> (r: Option<KeyContext>)
        ensures
            r == context_named(name@),
    {
        if same_str(name, "global") {
            Some(KeyContext::Global)
        } else if same_str(name, "reading") {
            Some(KeyContext::Reading)
        } else if same_str(name, "startpage") {
            Some(KeyContext::StartPage)
        } else if same_str(name, "picker") {
            Some(KeyContext::Picker)
        } else if same_str(name, "search") {
            Some(KeyContext::Search)
        } else {
            None
        }
    }

    /// What a keymap file calls this context.
    pub fn toml_name(self) -> (r: &'static str)
        ensures
            r@ == context_name(self),
    {
        match self {
            KeyContext::Global => "global",
            KeyContext::Reading => "reading",
            KeyContext::StartPage => "startpage",
            KeyContext::Picker => "picker",
            KeyContext::Search => "search",
        }
    }
}

/// The stable, hyphenated name that keymap files use.
#[verifier::opaque]
pub open spec fn name_of(a: Action) -> Seq<char> {
    match a {
        Action::ScrollDown => "scroll-down"@,
        Action::ScrollUp => "scroll-up"@,
        Action::HalfPageDown => "half-page-down"@,
        Action::HalfPageUp => "half-page-up"@,
        Action::PageDown => "page-down"@,
        Action::ScrollTop => "scroll-top"@,
        Action::ScrollBottom => "scroll-bottom"@,
        Action::ScrollTablesLeft => "table-scroll-left"@,
        Action::ScrollTablesRight => "table-scroll-right"@,
        Action::LinkCycleNext => "link-cycle-next"@,
        Action::LinkCyclePrev => "link-cycle-prev"@,
        Action::LinkHints => "link-hints"@,
        Action::LinkHintsBackground => "link-hints-background"@,
        Action::FollowLink => "follow-link"@,
        Action::OpenBackgroundTab => "open-background-tab"@,
        Action::Back => "history-back"@,
        Action::Forward => "history-forward"@,
        Action::BackStackPicker => "back-stack-picker"@,
        Action::ReadingHistory => "reading-history"@,
        Action::NextTab => "tab-next"@,
        Action::PrevTab => "tab-prev"@,
        Action::TabPicker => "tab-picker"@,
        Action::ReopenClosedTab => "tab-reopen"@,
        Action::CloseTab => "tab-close"@,
        Action::Toc => "toc"@,
        Action::CycleTheme => "cycle-theme"@,
        Action::TalkToggle => "talk-toggle"@,
        Action::Search => "search"@,
        Action::CommandLine => "command-line"@,
        Action::Help => "help"@,
        Action::Palette => "command-palette"@,
        Action::YankUrl => "yank-url"@,
        Action::YankMarkdown => "yank-markdown"@,
        Action::ReadLater => "read-later"@,
        Action::Research => "research"@,
        Action::Library => "library"@,
        Action::BookmarkToggle => "bookmark-toggle"@,
        Action::BookmarkPicker => "bookmark-picker"@,
        Action::Annotate => "annotate"@,
        Action::FindInPage => "find-in-page"@,
        Action::FindNext => "find-next"@,
        Action::FindPrev => "find-prev"@,
        Action::SaveOffline => "save-offline"@,
        Action::RandomArticle => "random-article"@,
        Action::RelatedPanel => "related"@,
        Action::LangPicker => "lang-picker"@,
        Action::WikiPicker => "wiki-picker"@,
        Action::Home => "home"@,
        Action::Today => "today"@,
        Action::Info => "info"@,
        Action::Login => "login"@,
        Action::Logout => "logout"@,
        Action::WatchToggle => "watch-toggle"@,
        Action::WatchlistOpen => "watchlist"@,
        Action::NotificationsOpen => "notifications"@,
        Action::ContribsOpen => "contribs"@,
        Action::PrefsOpen => "prefs"@,
        Action::Quit => "quit"@,
        Action::Peek => "peek"@,
        Action::IncognitoToggle => "incognito-toggle"@,
        Action::FoldToggle => "fold-toggle"@,
        Action::FoldAll => "fold-all"@,
        Action::UnfoldAll => "unfold-all"@,
        Action::JumpReferences => "jump-references"@,
        Action::Split => "split"@,
        Action::PrefetchLogOpen => "prefetch-log"@,
        Action::InterestsOpen => "interests"@,
        Action::StatsOpen => "stats-open"@,
        Action::SessionsList => "sessions"@,
        Action::MoveDown => "move-down"@,
        Action::MoveUp => "move-up"@,
        Action::Select => "select"@,
        Action::Close => "close"@,
    }
}

/// The label that the palette shows.
#[verifier::opaque]
pub open spec fn display_of(a: Action) -> Seq<char> {
    match a {
        Action::ScrollDown => "Scroll down"@,
        Action::ScrollUp => "Scroll up"@,
        Action::HalfPageDown => "Half page down"@,
        Action::HalfPageUp => "Half page up"@,
        Action::PageDown => "Page down"@,
        Action::ScrollTop => "Go to top"@,
        Action::ScrollBottom => "Go to bottom"@,
        Action::ScrollTablesLeft => "Scroll tables left"@,
        Action::ScrollTablesRight => "Scroll tables right"@,
        Action::LinkCycleNext => "Next link"@,
        Action::LinkCyclePrev => "Previous link"@,
        Action::LinkHints => "Link hints"@,
        Action::LinkHintsBackground => "Link hints (background tab)"@,
        Action::FollowLink => "Follow link"@,
        Action::OpenBackgroundTab => "Open link in background tab"@,
        Action::Back => "Back"@,
        Action::Forward => "Forward"@,
        Action::BackStackPicker => "Back-stack picker"@,
        Action::ReadingHistory => "Reading history"@,
        Action::NextTab => "Next tab"@,
        Action::PrevTab => "Previous tab"@,
        Action::TabPicker => "Tab picker"@,
        Action::ReopenClosedTab => "Reopen closed tab"@,
        Action::CloseTab => "Close tab"@,
        Action::Toc => "Table of contents"@,
        Action::CycleTheme => "Cycle theme"@,
        Action::TalkToggle => "Talk page"@,
        Action::Search => "Search"@,
        Action::CommandLine => "Command line"@,
        Action::Help => "Help"@,
        Action::Palette => "Command palette"@,
        Action::YankUrl => "Yank URL"@,
        Action::YankMarkdown => "Yank Markdown link"@,
        Action::ReadLater => "Read later"@,
        Action::Research => "Research mode"@,
        Action::Library => "Library"@,
        Action::BookmarkToggle => "Toggle bookmark"@,
        Action::BookmarkPicker => "Bookmarks"@,
        Action::Annotate => "Annotate bookmark"@,
        Action::FindInPage => "Find in page"@,
        Action::FindNext => "Find next"@,
        Action::FindPrev => "Find previous"@,
        Action::SaveOffline => "Save offline"@,
        Action::RandomArticle => "Random article"@,
        Action::RelatedPanel => "Related articles"@,
        Action::LangPicker => "Language editions"@,
        Action::WikiPicker => "Wiki"@,
        Action::Home => "Start page"@,
        Action::Today => "On this day"@,
        Action::Info => "Article info"@,
        Action::Login => "Log in"@,
        Action::Logout => "Log out"@,
        Action::WatchToggle => "Watch / unwatch"@,
        Action::WatchlistOpen => "Watchlist"@,
        Action::NotificationsOpen => "Notifications"@,
        Action::ContribsOpen => "Contributions"@,
        Action::PrefsOpen => "Preferences"@,
        Action::Quit => "Quit"@,
        Action::Peek => "Peek"@,
        Action::IncognitoToggle => "Toggle incognito"@,
        Action::FoldToggle => "Fold/unfold section"@,
        Action::FoldAll => "Fold all sections"@,
        Action::UnfoldAll => "Unfold all sections"@,
        Action::JumpReferences => "Jump to references"@,
        Action::Split => "Split view"@,
        Action::PrefetchLogOpen => "Prefetch log"@,
        Action::InterestsOpen => "Interests"@,
        Action::StatsOpen => "Reading stats"@,
        Action::SessionsList => "Named sessions"@,
        Action::MoveDown => "Move down"@,
        Action::MoveUp => "Move up"@,
        Action::Select => "Select"@,
        Action::Close => "Close"@,
    }
}

/// The help line.
#[verifier::opaque]
pub open spec fn help_of(a: Action) -> Seq<char> {
    match a {
        Action::ScrollDown => "scroll one line down"@,
        Action::ScrollUp => "scroll one line up"@,
        Action::HalfPageDown => "scroll half a page down"@,
        Action::HalfPageUp => "scroll half a page up"@,
        Action::PageDown => "scroll a full page down"@,
        Action::ScrollTop => "jump to the top of the article"@,
        Action::ScrollBottom => "jump to the bottom of the article"@,
        Action::ScrollTablesLeft => "shift wide tables left"@,
        Action::ScrollTablesRight => "shift wide tables right"@,
        Action::LinkCycleNext => "focus the next link"@,
        Action::LinkCyclePrev => "focus the previous link"@,
        Action::LinkHints => "label visible links; type the label to follow"@,
        Action::LinkHintsBackground => "label visible links; follow into a background tab"@,
        Action::FollowLink => "open the focused link"@,
        Action::OpenBackgroundTab => "open the focused link in a background tab"@,
        Action::Back => "go back in this tab's history"@,
        Action::Forward => "go forward in this tab's history"@,
        Action::BackStackPicker => "browse this tab's history trail"@,
        Action::ReadingHistory => "the persistent, cross-session reading history"@,
        Action::NextTab => "switch to the next tab"@,
        Action::PrevTab => "switch to the previous tab"@,
        Action::TabPicker => "pick from the open tabs"@,
        Action::ReopenClosedTab => "reopen the most recently closed tab"@,
        Action::CloseTab => "close the current tab (quits on the last)"@,
        Action::Toc => "open the table of contents"@,
        Action::CycleTheme => "cycle to the next color theme"@,
        Action::TalkToggle => "flip between the article and its talk page"@,
        Action::Search => "search Wikipedia (typeahead + full-text)"@,
        Action::CommandLine => "open the : ex-command line"@,
        Action::Help => "show this view's keybinding cheatsheet"@,
        Action::Palette => "fuzzy-find any command"@,
        Action::YankUrl => "copy the article's canonical URL"@,
        Action::YankMarkdown => "copy the article as a Markdown link"@,
        Action::ReadLater => "queue the focused link (or article) for later"@,
        Action::Research => "cite this page and its sources — r alone (rl instead queues the page for later)"@,
        Action::Library => "browse and export the saved bibliography"@,
        Action::BookmarkToggle => "bookmark or un-bookmark this article"@,
        Action::BookmarkPicker => "open the bookmark picker"@,
        Action::Annotate => "write a note on this article's bookmark"@,
        Action::FindInPage => "incremental in-page search"@,
        Action::FindNext => "jump to the next in-page match"@,
        Action::FindPrev => "jump to the previous in-page match"@,
        Action::SaveOffline => "pin this article for offline reading"@,
        Action::RandomArticle => "open a random article"@,
        Action::RelatedPanel => "articles similar to this one (morelike:)"@,
        Action::LangPicker => "switch to another language edition"@,
        Action::WikiPicker => "switch to Wikipedia or a sister project"@,
        Action::Home => "return to the start page"@,
        Action::Today => "open the on-this-day panel"@,
        Action::Info => "show this article's attribution: title, URL, revision, license, history"@,
        Action::Login => "log in to Wikipedia via OAuth (watchlist, notifications, reading lists)"@,
        Action::Logout => "log out and delete stored tokens (revoke server-side via OAuthManageMyGrants)"@,
        Action::WatchToggle => "toggle watching this article for edits (logged in)"@,
        Action::WatchlistOpen => "watched pages and recent changes to them (logged in)"@,
        Action::NotificationsOpen => "Echo alerts and messages (logged in)"@,
        Action::ContribsOpen => "your recent edits (or :contribs <username> for anyone's)"@,
        Action::PrefsOpen => "your account preferences, read-only (logged in)"@,
        Action::Quit => "quit wikitui (with confirmation)"@,
        Action::Peek => "preview the focused link or footnote without leaving the page"@,
        Action::IncognitoToggle => "no history, no stats, no prefetch while on"@,
        Action::FoldToggle => "fold or unfold the section under the cursor"@,
        Action::FoldAll => "collapse every section"@,
        Action::UnfoldAll => "expand every section"@,
        Action::JumpReferences => "jump to the References/Notes section"@,
        Action::Split => "split the view (Ctrl-w v; Ctrl-w w switches panes, Ctrl-w c/o/q closes)"@,
        Action::PrefetchLogOpen => "the prefetch transparency/debug panel"@,
        Action::InterestsOpen => "the local interest-affinity model, in full"@,
        Action::StatsOpen => "articles read, time spent, streaks, top topics"@,
        Action::SessionsList => "list this profile's named sessions (:mksession/:session)"@,
        Action::MoveDown => "move the selection down"@,
        Action::MoveUp => "move the selection up"@,
        Action::Select => "open / confirm the highlighted entry"@,
        Action::Close => "close this view"@,
    }
}

/// The contexts an action applies in, the first the one it is bound in.
pub open spec fn contexts_of(a: Action) -> Seq<KeyContext> {
    match a {
        Action::Search
        | Action::RandomArticle
        | Action::WikiPicker
        | Action::Home
        | Action::Today
        | Action::Login
        | Action::Logout
        | Action::WatchlistOpen
        | Action::NotificationsOpen
        | Action::ContribsOpen
        | Action::PrefsOpen
        | Action::PrefetchLogOpen
        | Action::InterestsOpen
        | Action::StatsOpen
        | Action::SessionsList => seq![KeyContext::Reading, KeyContext::StartPage],
        Action::MoveDown
        | Action::MoveUp
        | Action::Select
        | Action::Close => seq![KeyContext::Picker],
        Action::Help => seq![KeyContext::Global],
        _ => seq![KeyContext::Reading],
    }
}

/// Whether the palette offers an action: those that need no argument, and no
/// raw scroll step or move inside a list.
pub open spec fn offered(a: Action) -> bool {
    match a {
        Action::ScrollDown
        | Action::ScrollUp
        | Action::HalfPageDown
        | Action::HalfPageUp
        | Action::PageDown
        | Action::ScrollTablesLeft
        | Action::ScrollTablesRight
        | Action::LinkCycleNext
        | Action::LinkCyclePrev
        | Action::FollowLink
        | Action::OpenBackgroundTab
        | Action::Palette
        | Action::FindNext
        | Action::FindPrev
        | Action::MoveDown
        | Action::MoveUp
        | Action::Select
        | Action::Close => false,
        _ => true,
    }
}

/// The actions in the order of the command table.
pub open spec fn table_order() -> Seq<Action> {
    seq![
        Action::ScrollDown,
        Action::ScrollUp,
        Action::HalfPageDown,
        Action::HalfPageUp,
        Action::PageDown,
        Action::ScrollTop,
        Action::ScrollBottom,
        Action::ScrollTablesLeft,
        Action::ScrollTablesRight,
        Action::LinkCycleNext,
        Action::LinkCyclePrev,
        Action::LinkHints,
        Action::LinkHintsBackground,
        Action::FollowLink,
        Action::OpenBackgroundTab,
        Action::Back,
        Action::Forward,
        Action::BackStackPicker,
        Action::ReadingHistory,
        Action::NextTab,
        Action::PrevTab,
        Action::TabPicker,
        Action::ReopenClosedTab,
        Action::CloseTab,
        Action::Toc,
        Action::CycleTheme,
        Action::TalkToggle,
        Action::Search,
        Action::CommandLine,
        Action::Help,
        Action::Palette,
        Action::YankUrl,
        Action::YankMarkdown,
        Action::ReadLater,
        Action::Research,
        Action::Library,
        Action::BookmarkToggle,
        Action::BookmarkPicker,
        Action::Annotate,
        Action::FindInPage,
        Action::FindNext,
        Action::FindPrev,
        Action::SaveOffline,
        Action::RandomArticle,
        Action::RelatedPanel,
        Action::LangPicker,
        Action::WikiPicker,
        Action::Home,
        Action::Today,
        Action::Info,
        Action::Login,
        Action::Logout,
        Action::WatchToggle,
        Action::WatchlistOpen,
        Action::NotificationsOpen,
        Action::ContribsOpen,
        Action::PrefsOpen,
        Action::Quit,
        Action::Peek,
        Action::IncognitoToggle,
        Action::FoldToggle,
        Action::FoldAll,
        Action::UnfoldAll,
        Action::JumpReferences,
        Action::Split,
        Action::PrefetchLogOpen,
        Action::InterestsOpen,
        Action::StatsOpen,
        Action::SessionsList,
        Action::MoveDown,
        Action::MoveUp,
        Action::Select,
        Action::Close,
    ]
}

/// Where an action stands in the command table.
#[verifier::opaque]
pub open spec fn table_index(a: Action) -> int {
    match a {
        Action::ScrollDown => 0,
        Action::ScrollUp => 1,
        Action::HalfPageDown => 2,
        Action::HalfPageUp => 3,
        Action::PageDown => 4,
        Action::ScrollTop => 5,
        Action::ScrollBottom => 6,
        Action::ScrollTablesLeft => 7,
        Action::ScrollTablesRight => 8,
        Action::LinkCycleNext => 9,
        Action::LinkCyclePrev => 10,
        Action::LinkHints => 11,
        Action::LinkHintsBackground => 12,
        Action::FollowLink => 13,
        Action::OpenBackgroundTab => 14,
        Action::Back => 15,
        Action::Forward => 16,
        Action::BackStackPicker => 17,
        Action::ReadingHistory => 18,
        Action::NextTab => 19,
        Action::PrevTab => 20,
        Action::TabPicker => 21,
        Action::ReopenClosedTab => 22,
        Action::CloseTab => 23,
        Action::Toc => 24,
        Action::CycleTheme => 25,
        Action::TalkToggle => 26,
        Action::Search => 27,
        Action::CommandLine => 28,
        Action::Help => 29,
        Action::Palette => 30,
        Action::YankUrl => 31,
        Action::YankMarkdown => 32,
        Action::ReadLater => 33,
        Action::Research => 34,
        Action::Library => 35,
        Action::BookmarkToggle => 36,
        Action::BookmarkPicker => 37,
        Action::Annotate => 38,
        Action::FindInPage => 39,
        Action::FindNext => 40,
        Action::FindPrev => 41,
        Action::SaveOffline => 42,
        Action::RandomArticle => 43,
        Action::RelatedPanel => 44,
        Action::LangPicker => 45,
        Action::WikiPicker => 46,
        Action::Home => 47,
        Action::Today => 48,
        Action::Info => 49,
        Action::Login => 50,
        Action::Logout => 51,
        Action::WatchToggle => 52,
        Action::WatchlistOpen => 53,
        Action::NotificationsOpen => 54,
        Action::ContribsOpen => 55,
        Action::PrefsOpen => 56,
        Action::Quit => 57,
        Action::Peek => 58,
        Action::IncognitoToggle => 59,
        Action::FoldToggle => 60,
        Action::FoldAll => 61,
        Action::UnfoldAll => 62,
        Action::JumpReferences => 63,
        Action::Split => 64,
        Action::PrefetchLogOpen => 65,
        Action::InterestsOpen => 66,
        Action::StatsOpen => 67,
        Action::SessionsList => 68,
        Action::MoveDown => 69,
        Action::MoveUp => 70,
        Action::Select => 71,
        Action::Close => 72,
    }
}

/// Every action has exactly one row in the command table.
pub proof fn every_action_has_one_row(a: Action)
    ensures
        0 <= table_index(a) < table_order().len(),
        table_order()[table_index(a)] == a,
        forall|i: int|
            0 <= i < table_order().len() && #[trigger] table_order()[i] == a ==> i == table_index(
                a,
            ),
{
    reveal(table_index);
    assert forall|i: int| 0 <= i < table_order().len() && #[trigger] table_order()[i] == a implies i
        == table_index(a) by {
        lemma_row_index(i);
    }
}

proof fn lemma_row_index(i: int)
    requires
        0 <= i < table_order().len(),
    ensures
        table_index(table_order()[i]) == i,
{
    reveal(table_index);
}

/// A number that tells the names in the table apart: the length and four of
/// the characters.
spec fn name_mark(s: Seq<char>) -> int {
    let at = |i: int| if i < s.len() { s[i] as int } else { 0 };
    (((s.len() * 200 + at(0)) * 200 + at(1)) * 200 + at(5)) * 200 + at(11)
}

spec fn mark_of(a: Action) -> int {
    match a {
        Action::ScrollDown => 18523981600,
        Action::ScrollUp => 15323981600,
        Action::HalfPageDown => 23235902511,
        Action::HalfPageUp => 20035902512,
        Action::PageDown => 15299900000,
        Action::ScrollTop => 16923981600,
        Action::ScrollBottom => 21723981711,
        Action::ScrollTablesLeft => 28131889108,
        Action::ScrollTablesRight => 29731889108,
        Action::LinkCycleNext => 24868219910,
        Action::LinkCyclePrev => 24868219912,
        Action::LinkHints => 16868220800,
        Action::LinkHintsBackground => 34468220898,
        Action::FollowLink => 18420463800,
        Action::OpenBackgroundTab => 31292499711,
        Action::Back => 20036222907,
        Action::Forward => 24836222919,
        Action::BackStackPicker => 27987903112,
        Action::ReadingHistory => 24916062116,
        Action::NextTab => 13731900200,
        Action::PrevTab => 13731902800,
        Action::TabPicker => 16931901000,
        Action::ReopenClosedTab => 16931900200,
        Action::CloseTab => 15331901600,
        Action::Toc => 5732440000,
        Action::CycleTheme => 18396849000,
        Action::TalkToggle => 18531903200,
        Action::Search => 10524060800,
        Action::CommandLine => 19996462101,
        Action::Help => 7236040000,
        Action::Palette => 24796462101,
        Action::YankUrl => 13771903400,
        Action::YankMarkdown => 21771901919,
        Action::ReadLater => 16916061600,
        Action::Research => 13716062800,
        Action::Library => 12068222800,
        Action::BookmarkToggle => 24788459503,
        Action::BookmarkPicker => 24788459499,
        Action::Annotate => 13580419400,
        Action::FindInPage => 20020221101,
        Action::FindNext => 15220222000,
        Action::FindPrev => 15220222400,
        Action::SaveOffline => 20123902301,
        Action::RandomArticle => 23315901899,
        Action::RelatedPanel => 12116060200,
        Action::LangPicker => 18467902400,
        Action::WikiPicker => 18556222400,
        Action::Home => 7236440000,
        Action::Today => 8932440000,
        Action::Info => 7244400000,
        Action::Login => 8868440000,
        Action::Logout => 10468463200,
        Action::WatchToggle => 20155889101,
        Action::WatchlistOpen => 15355901600,
        Action::NotificationsOpen => 21684461110,
        Action::ContribsOpen => 13596461000,
        Action::PrefsOpen => 8900560000,
        Action::Quit => 7308680000,
        Action::Peek => 7300040000,
        Action::IncognitoToggle => 26444422111,
        Action::FoldToggle => 18420463200,
        Action::FoldAll => 13620459400,
        Action::UnfoldAll => 16940420000,
        Action::JumpReferences => 24852702910,
        Action::Split => 8924480000,
        Action::PrefetchLogOpen => 20100583303,
        Action::InterestsOpen => 15244420200,
        Action::StatsOpen => 16924649000,
        Action::SessionsList => 13724062200,
        Action::MoveDown => 15276460000,
        Action::MoveUp => 12076463400,
        Action::Select => 10524063200,
        Action::Close => 8796320000,
    }
}

proof fn lemma_mark(a: Action)
    ensures
        plain_word(name_of(a)),
        name_mark(name_of(a)) == mark_of(a),
{
    reveal(name_of);
    match a {
        Action::ScrollDown => {
            reveal_strlit("scroll-down");
        },
        Action::ScrollUp => {
            reveal_strlit("scroll-up");
        },
        Action::HalfPageDown => {
            reveal_strlit("half-page-down");
        },
        Action::HalfPageUp => {
            reveal_strlit("half-page-up");
        },
        Action::PageDown => {
            reveal_strlit("page-down");
        },
        Action::ScrollTop => {
            reveal_strlit("scroll-top");
        },
        Action::ScrollBottom => {
            reveal_strlit("scroll-bottom");
        },
        Action::ScrollTablesLeft => {
            reveal_strlit("table-scroll-left");
        },
        Action::ScrollTablesRight => {
            reveal_strlit("table-scroll-right");
        },
        Action::LinkCycleNext => {
            reveal_strlit("link-cycle-next");
        },
        Action::LinkCyclePrev => {
            reveal_strlit("link-cycle-prev");
        },
        Action::LinkHints => {
            reveal_strlit("link-hints");
        },
        Action::LinkHintsBackground => {
            reveal_strlit("link-hints-background");
        },
        Action::FollowLink => {
            reveal_strlit("follow-link");
        },
        Action::OpenBackgroundTab => {
            reveal_strlit("open-background-tab");
        },
        Action::Back => {
            reveal_strlit("history-back");
        },
        Action::Forward => {
            reveal_strlit("history-forward");
        },
        Action::BackStackPicker => {
            reveal_strlit("back-stack-picker");
        },
        Action::ReadingHistory => {
            reveal_strlit("reading-history");
        },
        Action::NextTab => {
            reveal_strlit("tab-next");
        },
        Action::PrevTab => {
            reveal_strlit("tab-prev");
        },
        Action::TabPicker => {
            reveal_strlit("tab-picker");
        },
        Action::ReopenClosedTab => {
            reveal_strlit("tab-reopen");
        },
        Action::CloseTab => {
            reveal_strlit("tab-close");
        },
        Action::Toc => {
            reveal_strlit("toc");
        },
        Action::CycleTheme => {
            reveal_strlit("cycle-theme");
        },
        Action::TalkToggle => {
            reveal_strlit("talk-toggle");
        },
        Action::Search => {
            reveal_strlit("search");
        },
        Action::CommandLine => {
            reveal_strlit("command-line");
        },
        Action::Help => {
            reveal_strlit("help");
        },
        Action::Palette => {
            reveal_strlit("command-palette");
        },
        Action::YankUrl => {
            reveal_strlit("yank-url");
        },
        Action::YankMarkdown => {
            reveal_strlit("yank-markdown");
        },
        Action::ReadLater => {
            reveal_strlit("read-later");
        },
        Action::Research => {
            reveal_strlit("research");
        },
        Action::Library => {
            reveal_strlit("library");
        },
        Action::BookmarkToggle => {
            reveal_strlit("bookmark-toggle");
        },
        Action::BookmarkPicker => {
            reveal_strlit("bookmark-picker");
        },
        Action::Annotate => {
            reveal_strlit("annotate");
        },
        Action::FindInPage => {
            reveal_strlit("find-in-page");
        },
        Action::FindNext => {
            reveal_strlit("find-next");
        },
        Action::FindPrev => {
            reveal_strlit("find-prev");
        },
        Action::SaveOffline => {
            reveal_strlit("save-offline");
        },
        Action::RandomArticle => {
            reveal_strlit("random-article");
        },
        Action::RelatedPanel => {
            reveal_strlit("related");
        },
        Action::LangPicker => {
            reveal_strlit("lang-picker");
        },
        Action::WikiPicker => {
            reveal_strlit("wiki-picker");
        },
        Action::Home => {
            reveal_strlit("home");
        },
        Action::Today => {
            reveal_strlit("today");
        },
        Action::Info => {
            reveal_strlit("info");
        },
        Action::Login => {
            reveal_strlit("login");
        },
        Action::Logout => {
            reveal_strlit("logout");
        },
        Action::WatchToggle => {
            reveal_strlit("watch-toggle");
        },
        Action::WatchlistOpen => {
            reveal_strlit("watchlist");
        },
        Action::NotificationsOpen => {
            reveal_strlit("notifications");
        },
        Action::ContribsOpen => {
            reveal_strlit("contribs");
        },
        Action::PrefsOpen => {
            reveal_strlit("prefs");
        },
        Action::Quit => {
            reveal_strlit("quit");
        },
        Action::Peek => {
            reveal_strlit("peek");
        },
        Action::IncognitoToggle => {
            reveal_strlit("incognito-toggle");
        },
        Action::FoldToggle => {
            reveal_strlit("fold-toggle");
        },
        Action::FoldAll => {
            reveal_strlit("fold-all");
        },
        Action::UnfoldAll => {
            reveal_strlit("unfold-all");
        },
        Action::JumpReferences => {
            reveal_strlit("jump-references");
        },
        Action::Split => {
            reveal_strlit("split");
        },
        Action::PrefetchLogOpen => {
            reveal_strlit("prefetch-log");
        },
        Action::InterestsOpen => {
            reveal_strlit("interests");
        },
        Action::StatsOpen => {
            reveal_strlit("stats-open");
        },
        Action::SessionsList => {
            reveal_strlit("sessions");
        },
        Action::MoveDown => {
            reveal_strlit("move-down");
        },
        Action::MoveUp => {
            reveal_strlit("move-up");
        },
        Action::Select => {
            reveal_strlit("select");
        },
        Action::Close => {
            reveal_strlit("close");
        },
    }
}

/// A word that nothing is trimmed off, and that no colon starts.
pub open spec fn plain_word(s: Seq<char>) -> bool {
    &&& s.len() > 0
    &&& s[0] != ':'
    &&& !crate::text::whitespace(s[0])
    &&& !crate::text::whitespace(s.last())
}

/// An action's name is a word that nothing is trimmed off.
pub proof fn names_are_plain_words(a: Action)
    ensures
        plain_word(name_of(a)),
{
    lemma_mark(a);
}

/// No two actions share a name.
pub proof fn names_are_unique(a: Action, b: Action)
    requires
        name_of(a) == name_of(b),
    ensures
        a == b,
{
    lemma_mark(a);
    lemma_mark(b);
}

/// The action whose name it is.
pub open spec fn action_named(name: Seq<char>) -> Option<Action> {
    if exists|a: Action| name_of(a) == name {
        Some(choose|a: Action| name_of(a) == name)
    } else {
        None
    }
}

/// An action is found again by its own name.
pub proof fn action_names_read_back(a: Action)
    ensures
        action_named(name_of(a)) == Some(a),
{
    let b = choose|b: Action| name_of(b) == name_of(a);
    names_are_unique(a, b);
}

/// A row of the command table.
pub struct Meta {
    pub action: Action,
    /// The stable, hyphenated name that keymap files use.
    pub name: &'static str,
    /// The label that the palette shows.
    pub display: &'static str,
    /// The help line.
    pub help: &'static str,
    /// The contexts the action applies in.
    pub contexts: Vec<KeyContext>,
    /// Whether the palette offers the action.
    pub in_palette: bool,
}

/// A row's contents.
#[verifier::ext_equal]
pub struct MetaModel {
    pub action: Action,
    pub name: Seq<char>,
    pub display: Seq<char>,
    pub help: Seq<char>,
    pub contexts: Seq<KeyContext>,
    pub in_palette: bool,
}

impl View for Meta {
    type V = MetaModel;

    open spec fn view(&self) -> MetaModel {
        MetaModel {
            action: self.action,
            name: self.name@,
            display: self.display@,
            help: self.help@,
            contexts: self.contexts@,
            in_palette: self.in_palette,
        }
    }
}

/// The row of an action.
pub open spec fn row_of(a: Action) -> MetaModel {
    MetaModel {
        action: a,
        name: name_of(a),
        display: display_of(a),
        help: help_of(a),
        contexts: contexts_of(a),
        in_palette: offered(a),
    }
}

/// An action applies in the contexts of its row, and in all of them where the
/// row names `Global`.
pub open spec fn applies(a: Action, ctx: KeyContext) -> bool {
    contexts_of(a).contains(ctx) || contexts_of(a).contains(KeyContext::Global)
}

/// The actions in the order of the command table.
pub fn all_actions() -> (r: Vec<Action>)
    ensures
        r@ == table_order(),
{
    let out: Vec<Action> = vec![
        Action::ScrollDown,
        Action::ScrollUp,
        Action::HalfPageDown,
        Action::HalfPageUp,
        Action::PageDown,
        Action::ScrollTop,
        Action::ScrollBottom,
        Action::ScrollTablesLeft,
        Action::ScrollTablesRight,
        Action::LinkCycleNext,
        Action::LinkCyclePrev,
        Action::LinkHints,
        Action::LinkHintsBackground,
        Action::FollowLink,
        Action::OpenBackgroundTab,
        Action::Back,
        Action::Forward,
        Action::BackStackPicker,
        Action::ReadingHistory,
        Action::NextTab,
        Action::PrevTab,
        Action::TabPicker,
        Action::ReopenClosedTab,
        Action::CloseTab,
        Action::Toc,
        Action::CycleTheme,
        Action::TalkToggle,
        Action::Search,
        Action::CommandLine,
        Action::Help,
        Action::Palette,
        Action::YankUrl,
        Action::YankMarkdown,
        Action::ReadLater,
        Action::Research,
        Action::Library,
        Action::BookmarkToggle,
        Action::BookmarkPicker,
        Action::Annotate,
        Action::FindInPage,
        Action::FindNext,
        Action::FindPrev,
        Action::SaveOffline,
        Action::RandomArticle,
        Action::RelatedPanel,
        Action::LangPicker,
        Action::WikiPicker,
        Action::Home,
        Action::Today,
        Action::Info,
        Action::Login,
        Action::Logout,
        Action::WatchToggle,
        Action::WatchlistOpen,
        Action::NotificationsOpen,
        Action::ContribsOpen,
        Action::PrefsOpen,
        Action::Quit,
        Action::Peek,
        Action::IncognitoToggle,
        Action::FoldToggle,
        Action::FoldAll,
        Action::UnfoldAll,
        Action::JumpReferences,
        Action::Split,
        Action::PrefetchLogOpen,
        Action::InterestsOpen,
        Action::StatsOpen,
        Action::SessionsList,
        Action::MoveDown,
        Action::MoveUp,
        Action::Select,
        Action::Close,
    ];
    assert(out@ =~= table_order());
    out
}

fn contexts(a: Action) -> (r: Vec<KeyContext>)
    ensures
        r@ == contexts_of(a),
{
    let out: Vec<KeyContext> = match a {
        Action::Search
        | Action::RandomArticle
        | Action::WikiPicker
        | Action::Home
        | Action::Today
        | Action::Login
        | Action::Logout
        | Action::WatchlistOpen
        | Action::NotificationsOpen
        | Action::ContribsOpen
        | Action::PrefsOpen
        | Action::PrefetchLogOpen
        | Action::InterestsOpen
        | Action::StatsOpen
        | Action::SessionsList => vec![KeyContext::Reading, KeyContext::StartPage],
        Action::MoveDown
        | Action::MoveUp
        | Action::Select
        | Action::Close => vec![KeyContext::Picker],
        Action::Help => vec![KeyContext::Global],
        _ => vec![KeyContext::Reading],
    };
    assert(out@ =~= contexts_of(a));
    out
}

fn in_palette(a: Action) -> (r: bool)
    ensures
        r == offered(a),
{
    match a {
        Action::ScrollDown
        | Action::ScrollUp
        | Action::HalfPageDown
        | Action::HalfPageUp
        | Action::PageDown
        | Action::ScrollTablesLeft
        | Action::ScrollTablesRight
        | Action::LinkCycleNext
        | Action::LinkCyclePrev
        | Action::FollowLink
        | Action::OpenBackgroundTab
        | Action::Palette
        | Action::FindNext
        | Action::FindPrev
        | Action::MoveDown
        | Action::MoveUp
        | Action::Select
        | Action::Close => false,
        _ => true,
    }
}

/// The row of an action.
pub fn meta(action: Action) -> (r: Meta)
    ensures
        r@ == row_of(action),
{
    Meta {
        action,
        name: action.name(),
        display: action.display(),
        help: action.help(),
        contexts: contexts(action),
        in_palette: in_palette(action),
    }
}

/// The command table.
pub fn commands() -> (r: Vec<Meta>)
    ensures
        r@.len() == table_order().len(),
        forall|i: int| 0 <= i < r@.len() ==> (#[trigger] r@[i])@ == row_of(table_order()[i]),
{
    let actions = all_actions();
    let n: usize = actions.len();
    let mut out: Vec<Meta> = Vec::new();
    for i in 0..n
        invariant
            actions@ == table_order(),
            n == actions.len(),
            out@.len() == i,
            forall|j: int| 0 <= j < i ==> (#[trigger] out@[j])@ == row_of(table_order()[j]),
    {
        out.push(meta(actions[i]));
    }
    out
}

impl Action {
    /// The action of that name.
    pub fn by_name(name: &str) -> (r: Option<Action>)
        ensures
            r == action_named(name@),
    {
        let actions = all_actions();
        let n: usize = actions.len();
        for i in 0..n
            invariant
                actions@ == table_order(),
                n == actions.len(),
                forall|j: int| 0 <= j < i ==> name_of(#[trigger] table_order()[j]) != name@,
        {
            if same_str(actions[i].name(), name) {
                proof { action_names_read_back(actions@[i as int]); }
                return Some(actions[i]);
            }
        }
        proof {
            assert forall|a: Action| name_of(a) != name@ by {
                every_action_has_one_row(a);
                assert(name_of(table_order()[table_index(a)]) != name@);
            }
        }
        None
    }

    /// The stable, hyphenated name that keymap files use.
    pub fn name(self) -> (r: &'static str)
        ensures
            r@ == name_of(self),
    {
        reveal(name_of);
        match self {
            Action::ScrollDown => "scroll-down",
            Action::ScrollUp => "scroll-up",
            Action::HalfPageDown => "half-page-down",
            Action::HalfPageUp => "half-page-up",
            Action::PageDown => "page-down",
            Action::ScrollTop => "scroll-top",
            Action::ScrollBottom => "scroll-bottom",
            Action::ScrollTablesLeft => "table-scroll-left",
            Action::ScrollTablesRight => "table-scroll-right",
            Action::LinkCycleNext => "link-cycle-next",
            Action::LinkCyclePrev => "link-cycle-prev",
            Action::LinkHints => "link-hints",
            Action::LinkHintsBackground => "link-hints-background",
            Action::FollowLink => "follow-link",
            Action::OpenBackgroundTab => "open-background-tab",
            Action::Back => "history-back",
            Action::Forward => "history-forward",
            Action::BackStackPicker => "back-stack-picker",
            Action::ReadingHistory => "reading-history",
            Action::NextTab => "tab-next",
            Action::PrevTab => "tab-prev",
            Action::TabPicker => "tab-picker",
            Action::ReopenClosedTab => "tab-reopen",
            Action::CloseTab => "tab-close",
            Action::Toc => "toc",
            Action::CycleTheme => "cycle-theme",
            Action::TalkToggle => "talk-toggle",
            Action::Search => "search",
            Action::CommandLine => "command-line",
            Action::Help => "help",
            Action::Palette => "command-palette",
            Action::YankUrl => "yank-url",
            Action::YankMarkdown => "yank-markdown",
            Action::ReadLater => "read-later",
            Action::Research => "research",
            Action::Library => "library",
            Action::BookmarkToggle => "bookmark-toggle",
            Action::BookmarkPicker => "bookmark-picker",
            Action::Annotate => "annotate",
            Action::FindInPage => "find-in-page",
            Action::FindNext => "find-next",
            Action::FindPrev => "find-prev",
            Action::SaveOffline => "save-offline",
            Action::RandomArticle => "random-article",
            Action::RelatedPanel => "related",
            Action::LangPicker => "lang-picker",
            Action::WikiPicker => "wiki-picker",
            Action::Home => "home",
            Action::Today => "today",
            Action::Info => "info",
            Action::Login => "login",
            Action::Logout => "logout",
            Action::WatchToggle => "watch-toggle",
            Action::WatchlistOpen => "watchlist",
            Action::NotificationsOpen => "notifications",
            Action::ContribsOpen => "contribs",
            Action::PrefsOpen => "prefs",
            Action::Quit => "quit",
            Action::Peek => "peek",
            Action::IncognitoToggle => "incognito-toggle",
            Action::FoldToggle => "fold-toggle",
            Action::FoldAll => "fold-all",
            Action::UnfoldAll => "unfold-all",
            Action::JumpReferences => "jump-references",
            Action::Split => "split",
            Action::PrefetchLogOpen => "prefetch-log",
            Action::InterestsOpen => "interests",
            Action::StatsOpen => "stats-open",
            Action::SessionsList => "sessions",
            Action::MoveDown => "move-down",
            Action::MoveUp => "move-up",
            Action::Select => "select",
            Action::Close => "close",
        }
    }

    /// The label that the palette shows.
    pub fn display(self) -> (r: &'static str)
        ensures
            r@ == display_of(self),
    {
        reveal(display_of);
        match self {
            Action::ScrollDown => "Scroll down",
            Action::ScrollUp => "Scroll up",
            Action::HalfPageDown => "Half page down",
            Action::HalfPageUp => "Half page up",
            Action::PageDown => "Page down",
            Action::ScrollTop => "Go to top",
            Action::ScrollBottom => "Go to bottom",
            Action::ScrollTablesLeft => "Scroll tables left",
            Action::ScrollTablesRight => "Scroll tables right",
            Action::LinkCycleNext => "Next link",
            Action::LinkCyclePrev => "Previous link",
            Action::LinkHints => "Link hints",
            Action::LinkHintsBackground => "Link hints (background tab)",
            Action::FollowLink => "Follow link",
            Action::OpenBackgroundTab => "Open link in background tab",
            Action::Back => "Back",
            Action::Forward => "Forward",
            Action::BackStackPicker => "Back-stack picker",
            Action::ReadingHistory => "Reading history",
            Action::NextTab => "Next tab",
            Action::PrevTab => "Previous tab",
            Action::TabPicker => "Tab picker",
            Action::ReopenClosedTab => "Reopen closed tab",
            Action::CloseTab => "Close tab",
            Action::Toc => "Table of contents",
            Action::CycleTheme => "Cycle theme",
            Action::TalkToggle => "Talk page",
            Action::Search => "Search",
            Action::CommandLine => "Command line",
            Action::Help => "Help",
            Action::Palette => "Command palette",
            Action::YankUrl => "Yank URL",
            Action::YankMarkdown => "Yank Markdown link",
            Action::ReadLater => "Read later",
            Action::Research => "Research mode",
            Action::Library => "Library",
            Action::BookmarkToggle => "Toggle bookmark",
            Action::BookmarkPicker => "Bookmarks",
            Action::Annotate => "Annotate bookmark",
            Action::FindInPage => "Find in page",
            Action::FindNext => "Find next",
            Action::FindPrev => "Find previous",
            Action::SaveOffline => "Save offline",
            Action::RandomArticle => "Random article",
            Action::RelatedPanel => "Related articles",
            Action::LangPicker => "Language editions",
            Action::WikiPicker => "Wiki",
            Action::Home => "Start page",
            Action::Today => "On this day",
            Action::Info => "Article info",
            Action::Login => "Log in",
            Action::Logout => "Log out",
            Action::WatchToggle => "Watch / unwatch",
            Action::WatchlistOpen => "Watchlist",
            Action::NotificationsOpen => "Notifications",
            Action::ContribsOpen => "Contributions",
            Action::PrefsOpen => "Preferences",
            Action::Quit => "Quit",
            Action::Peek => "Peek",
            Action::IncognitoToggle => "Toggle incognito",
            Action::FoldToggle => "Fold/unfold section",
            Action::FoldAll => "Fold all sections",
            Action::UnfoldAll => "Unfold all sections",
            Action::JumpReferences => "Jump to references",
            Action::Split => "Split view",
            Action::PrefetchLogOpen => "Prefetch log",
            Action::InterestsOpen => "Interests",
            Action::StatsOpen => "Reading stats",
            Action::SessionsList => "Named sessions",
            Action::MoveDown => "Move down",
            Action::MoveUp => "Move up",
            Action::Select => "Select",
            Action::Close => "Close",
        }
    }

    /// The help line.
    pub fn help(self) -> (r: &'static str)
        ensures
            r@ == help_of(self),
    {
        reveal(help_of);
        match self {
            Action::ScrollDown => "scroll one line down",
            Action::ScrollUp => "scroll one line up",
            Action::HalfPageDown => "scroll half a page down",
            Action::HalfPageUp => "scroll half a page up",
            Action::PageDown => "scroll a full page down",
            Action::ScrollTop => "jump to the top of the article",
            Action::ScrollBottom => "jump to the bottom of the article",
            Action::ScrollTablesLeft => "shift wide tables left",
            Action::ScrollTablesRight => "shift wide tables right",
            Action::LinkCycleNext => "focus the next link",
            Action::LinkCyclePrev => "focus the previous link",
            Action::LinkHints => "label visible links; type the label to follow",
            Action::LinkHintsBackground => "label visible links; follow into a background tab",
            Action::FollowLink => "open the focused link",
            Action::OpenBackgroundTab => "open the focused link in a background tab",
            Action::Back => "go back in this tab's history",
            Action::Forward => "go forward in this tab's history",
            Action::BackStackPicker => "browse this tab's history trail",
            Action::ReadingHistory => "the persistent, cross-session reading history",
            Action::NextTab => "switch to the next tab",
            Action::PrevTab => "switch to the previous tab",
            Action::TabPicker => "pick from the open tabs",
            Action::ReopenClosedTab => "reopen the most recently closed tab",
            Action::CloseTab => "close the current tab (quits on the last)",
            Action::Toc => "open the table of contents",
            Action::CycleTheme => "cycle to the next color theme",
            Action::TalkToggle => "flip between the article and its talk page",
            Action::Search => "search Wikipedia (typeahead + full-text)",
            Action::CommandLine => "open the : ex-command line",
            Action::Help => "show this view's keybinding cheatsheet",
            Action::Palette => "fuzzy-find any command",
            Action::YankUrl => "copy the article's canonical URL",
            Action::YankMarkdown => "copy the article as a Markdown link",
            Action::ReadLater => "queue the focused link (or article) for later",
            Action::Research => "cite this page and its sources — r alone (rl instead queues the page for later)",
            Action::Library => "browse and export the saved bibliography",
            Action::BookmarkToggle => "bookmark or un-bookmark this article",
            Action::BookmarkPicker => "open the bookmark picker",
            Action::Annotate => "write a note on this article's bookmark",
            Action::FindInPage => "incremental in-page search",
            Action::FindNext => "jump to the next in-page match",
            Action::FindPrev => "jump to the previous in-page match",
            Action::SaveOffline => "pin this article for offline reading",
            Action::RandomArticle => "open a random article",
            Action::RelatedPanel => "articles similar to this one (morelike:)",
            Action::LangPicker => "switch to another language edition",
            Action::WikiPicker => "switch to Wikipedia or a sister project",
            Action::Home => "return to the start page",
            Action::Today => "open the on-this-day panel",
            Action::Info => "show this article's attribution: title, URL, revision, license, history",
            Action::Login => "log in to Wikipedia via OAuth (watchlist, notifications, reading lists)",
            Action::Logout => "log out and delete stored tokens (revoke server-side via OAuthManageMyGrants)",
            Action::WatchToggle => "toggle watching this article for edits (logged in)",
            Action::WatchlistOpen => "watched pages and recent changes to them (logged in)",
            Action::NotificationsOpen => "Echo alerts and messages (logged in)",
            Action::ContribsOpen => "your recent edits (or :contribs <username> for anyone's)",
            Action::PrefsOpen => "your account preferences, read-only (logged in)",
            Action::Quit => "quit wikitui (with confirmation)",
            Action::Peek => "preview the focused link or footnote without leaving the page",
            Action::IncognitoToggle => "no history, no stats, no prefetch while on",
            Action::FoldToggle => "fold or unfold the section under the cursor",
            Action::FoldAll => "collapse every section",
            Action::UnfoldAll => "expand every section",
            Action::JumpReferences => "jump to the References/Notes section",
            Action::Split => "split the view (Ctrl-w v; Ctrl-w w switches panes, Ctrl-w c/o/q closes)",
            Action::PrefetchLogOpen => "the prefetch transparency/debug panel",
            Action::InterestsOpen => "the local interest-affinity model, in full",
            Action::StatsOpen => "articles read, time spent, streaks, top topics",
            Action::SessionsList => "list this profile's named sessions (:mksession/:session)",
            Action::MoveDown => "move the selection down",
            Action::MoveUp => "move the selection up",
            Action::Select => "open / confirm the highlighted entry",
            Action::Close => "close this view",
        }
    }

    /// Whether the action applies in a context.
    pub fn applies_in(self, ctx: KeyContext) -> (r: bool)
        ensures
            r == applies(self, ctx),
    {
        let list = contexts(self);
        let n: usize = list.len();
        for i in 0..n
            invariant
                n == list.len(),
                list@ == contexts_of(self),
                forall|j: int|
                    0 <= j < i ==> (#[trigger] list@[j]) != ctx && list@[j] != KeyContext::Global,
        {
            if list[i] == ctx || list[i] == KeyContext::Global {
                assert(list@.contains(list@[i as int]));
                return true;
            }
        }
        false
    }
}

} // verus!
