//! Keymaps: which action a key leads to in which view.
use crate::registry::chord::{ctrl_chord, latched_chord, plain_chord, Chord, ChordCode, chord_label};
use crate::registry::command::{Action, KeyContext};
use crate::text::{
    join_with, joined_with, lemma_lex_total, lemma_lex_trans, lex_le, same_str, str_le, views,
};
use vstd::prelude::*;

verus! {

/// A key of a binding table, with an exact comparison.
pub trait TableKey: Copy {
    fn same_key(&self, other: &Self) -> (r: bool)
        ensures
            r == (*self == *other),
    ;
}

/// A place for a binding: a chord in a context.
#[derive(Debug, Clone, Copy, PartialEq, Eq)]
pub struct Slot {
    pub ctx: KeyContext,
    pub chord: Chord,
}

impl TableKey for Slot {
    fn same_key(&self, other: &Slot) -> (r: bool) {
        self.ctx == other.ctx && self.chord.same(&other.chord)
    }
}

impl TableKey for Chord {
    fn same_key(&self, other: &Chord) -> (r: bool) {
        self.same(other)
    }
}

/// The bindings of a list, where the last of a key counts.
pub open spec fn map_of<K>(list: Seq<(K, Action)>) -> Map<K, Action>
    decreases list.len(),
{
    if list.len() == 0 {
        Map::empty()
    } else {
        map_of(list.drop_last()).insert(list.last().0, list.last().1)
    }
}

spec fn distinct_keys<K>(list: Seq<(K, Action)>) -> bool {
    forall|i: int, j: int| 0 <= i < j < list.len() ==> (#[trigger] list[i]).0 != (#[trigger] list[j]).0
}

/// A key is bound where the list holds it.
proof fn lemma_map_keys<K>(list: Seq<(K, Action)>, k: K)
    ensures
        map_of(list).contains_key(k) <==> exists|i: int|
            0 <= i < list.len() && (#[trigger] list[i]).0 == k,
    decreases list.len(),
{
    if list.len() > 0 {
        let rest = list.drop_last();
        lemma_map_keys(rest, k);
        if list.last().0 == k {
            assert(list[list.len() - 1].0 == k);
        }
        if exists|i: int| 0 <= i < list.len() && (#[trigger] list[i]).0 == k {
            let i = choose|i: int| 0 <= i < list.len() && (#[trigger] list[i]).0 == k;
            if i < list.len() - 1 {
                assert(rest[i].0 == k);
            }
        }
        if exists|i: int| 0 <= i < rest.len() && (#[trigger] rest[i]).0 == k {
            let i = choose|i: int| 0 <= i < rest.len() && (#[trigger] rest[i]).0 == k;
            assert(list[i].0 == k);
        }
    }
}

/// With distinct keys, what the list holds is what is bound.
proof fn lemma_map_entry<K>(list: Seq<(K, Action)>, i: int)
    requires
        distinct_keys(list),
        0 <= i < list.len(),
    ensures
        map_of(list).contains_key(list[i].0),
        map_of(list)[list[i].0] == list[i].1,
    decreases list.len(),
{
    let rest = list.drop_last();
    if i < list.len() - 1 {
        assert(distinct_keys(rest)) by {
            assert forall|a: int, b: int| 0 <= a < b < rest.len() implies (#[trigger] rest[a]).0
                != (#[trigger] rest[b]).0 by {
                assert(list[a].0 != list[b].0);
            }
        }
        lemma_map_entry(rest, i);
        assert(rest[i] == list[i]);
        assert(list[i].0 != list[list.len() - 1].0);
    }
}

/// A table of bindings, each key once.
#[derive(Debug)]
pub struct Table<K: TableKey> {
    entries: Vec<(K, Action)>,
}

impl<K: TableKey> View for Table<K> {
    type V = Map<K, Action>;

    closed spec fn view(&self) -> Map<K, Action> {
        map_of(self.entries@)
    }
}

impl<K: TableKey> Clone for Table<K> {
    fn clone(&self) -> (r: Table<K>)
        ensures
            r@ == self@,
    {
        let mut entries: Vec<(K, Action)> = Vec::new();
        let n: usize = self.entries.len();
        proof { use_type_invariant(self); }
        for i in 0..n
            invariant
                n == self.entries.len(),
                entries@ == self.entries@.take(i as int),
        {
            entries.push(self.entries[i]);
        }
        proof { assert(self.entries@.take(n as int) =~= self.entries@); }
        Table { entries }
    }
}

impl<K: TableKey> Table<K> {
    #[verifier::type_invariant]
    spec fn wf(&self) -> bool {
        distinct_keys(self.entries@)
    }

    /// A table without bindings.
    pub fn new() -> (r: Table<K>)
        ensures
            r@ == Map::<K, Action>::empty(),
    {
        Table { entries: Vec::new() }
    }

    /// The action bound to `k`.
    pub fn get(&self, k: &K) -> (r: Option<Action>)
        ensures
            r == self@.get(*k),
    {
        let n: usize = self.entries.len();
        proof { use_type_invariant(self); }
        for i in 0..n
            invariant
                n == self.entries.len(),
                distinct_keys(self.entries@),
                forall|j: int| 0 <= j < i ==> (#[trigger] self.entries@[j]).0 != *k,
        {
            if self.entries[i].0.same_key(k) {
                proof { lemma_map_entry(self.entries@, i as int); }
                return Some(self.entries[i].1);
            }
        }
        proof { lemma_map_keys(self.entries@, *k); }
        None
    }

    /// The entries but that of `k`.
    fn without(&self, k: &K) -> (r: Vec<(K, Action)>)
        ensures
            map_of(r@) == self@.remove(*k),
            distinct_keys(r@),
            forall|i: int| 0 <= i < r@.len() ==> (#[trigger] r@[i]).0 != *k,
            r@.len() <= self.entries@.len(),
            !self@.contains_key(*k) ==> r@.len() == self.entries@.len(),
    {
        let n: usize = self.entries.len();
        let mut out: Vec<(K, Action)> = Vec::new();
        proof {
            use_type_invariant(self);
            assert(map_of(self.entries@.take(0)).remove(*k) =~= map_of(out@));
        }
        for i in 0..n
            invariant
                n == self.entries.len(),
                distinct_keys(self.entries@),
                out@.len() <= i,
                map_of(out@) == map_of(self.entries@.take(i as int)).remove(*k),
                distinct_keys(out@),
                forall|j: int| 0 <= j < out@.len() ==> (#[trigger] out@[j]).0 != *k,
                forall|j: int|
                    0 <= j < out@.len() ==> exists|m: int|
                        0 <= m < i && (#[trigger] out@[j]) == (#[trigger] self.entries@[m]),
                !self@.contains_key(*k) ==> out@.len() == i,
        {
            let ghost upto = self.entries@.take(i + 1);
            proof {
                assert(upto.drop_last() =~= self.entries@.take(i as int));
                assert(upto.last() == self.entries@[i as int]);
            }
            if !self.entries[i].0.same_key(k) {
                let ghost pre = out@;
                out.push(self.entries[i]);
                proof {
                    assert(out@.drop_last() =~= pre);
                    assert(map_of(out@) =~= map_of(upto).remove(*k));
                    assert forall|a: int, b: int| 0 <= a < b < out@.len() implies (#[trigger] out@[a]).0
                        != (#[trigger] out@[b]).0 by {
                        if b == pre.len() {
                            let m = choose|m: int|
                                0 <= m < i && pre[a] == (#[trigger] self.entries@[m]);
                            assert(self.entries@[m].0 != self.entries@[i as int].0);
                        }
                    }
                    assert forall|j: int| 0 <= j < out@.len() implies exists|m: int|
                        0 <= m < i + 1 && (#[trigger] out@[j]) == (#[trigger] self.entries@[m]) by {
                        if j == pre.len() {
                            assert(out@[j] == self.entries@[i as int]);
                        } else {
                            assert(out@[j] == pre[j]);
                        }
                    }
                }
            } else {
                proof {
                    assert(map_of(out@) =~= map_of(upto).remove(*k));
                    lemma_map_entry(self.entries@, i as int);
                }
            }
        }
        proof { assert(self.entries@.take(n as int) =~= self.entries@); }
        out
    }

    /// Binds `k` to `action`, in place of what it was bound to.
    pub fn insert(&mut self, k: K, action: Action)
        ensures
            final(self)@ == old(self)@.insert(k, action),
    {
        let ghost before = self@;
        let mut out = self.without(&k);
        let ghost rest = out@;
        out.push((k, action));
        proof {
            assert(out@.drop_last() =~= rest);
            assert(map_of(out@) =~= before.insert(k, action));
        }
        self.entries = out;
    }

    /// Takes the binding of `k` away, and says whether there was one.
    pub fn remove(&mut self, k: &K) -> (r: bool)
        ensures
            r == old(self)@.contains_key(*k),
            final(self)@ == old(self)@.remove(*k),
    {
        let had = self.get(k).is_some();
        let out = self.without(k);
        self.entries = out;
        had
    }

    /// The table of a list of bindings.
    fn from_list(list: &Vec<(K, Action)>) -> (r: Table<K>)
        ensures
            r@ == map_of(list@),
    {
        let mut out = Table::new();
        let n: usize = list.len();
        for i in 0..n
            invariant
                n == list.len(),
                out@ == map_of(list@.take(i as int)),
        {
            proof {
                assert(list@.take(i + 1).drop_last() =~= list@.take(i as int));
            }
            out.insert(list[i].0, list[i].1);
        }
        proof { assert(list@.take(n as int) =~= list@); }
        out
    }
}

/// The character that opens the leader space where no file sets another.
pub const DEFAULT_LEADER: char = ',';

/// What a keymap holds.
#[verifier::ext_equal]
pub struct KeymapModel {
    /// The preset's own bindings.
    pub base: Map<Slot, Action>,
    /// What a preset or the user puts over them.
    pub overrides: Map<Slot, Action>,
    /// The key that opens the leader space.
    pub leader_key: char,
    /// The keys after the leader key.
    pub leader: Map<Chord, Action>,
}

/// A place for a binding.
pub open spec fn slot(ctx: KeyContext, chord: Chord) -> Slot {
    Slot { ctx, chord }
}

/// A binding.
pub open spec fn at(ctx: KeyContext, chord: Chord, action: Action) -> (Slot, Action) {
    (slot(ctx, chord), action)
}

/// A layer's action for a chord: the context's own, else the global one.
pub open spec fn layer_action(layer: Map<Slot, Action>, ctx: KeyContext, chord: Chord) -> Option<
    Action,
> {
    match layer.get(slot(ctx, chord)) {
        Some(a) => Some(a),
        None => layer.get(slot(KeyContext::Global, chord)),
    }
}

impl KeymapModel {
    /// The action of a chord: the overrides before the base, and in each the
    /// context before `Global`.
    pub open spec fn resolved(self, ctx: KeyContext, chord: Chord) -> Option<Action> {
        match layer_action(self.overrides, ctx, chord) {
            Some(a) => Some(a),
            None => layer_action(self.base, ctx, chord),
        }
    }

    /// The chord stands for the action in that context or globally, in one of
    /// the two layers.
    pub open spec fn shows(self, ctx: KeyContext, action: Action, chord: Chord) -> bool {
        ||| self.base.get(slot(ctx, chord)) == Some(action)
        ||| self.base.get(slot(KeyContext::Global, chord)) == Some(action)
        ||| self.overrides.get(slot(ctx, chord)) == Some(action)
        ||| self.overrides.get(slot(KeyContext::Global, chord)) == Some(action)
    }

    /// The chords that lead to an action, each once, in the order of their
    /// labels.
    pub open spec fn leads(self, ctx: KeyContext, action: Action, chords: Seq<Chord>) -> bool {
        &&& chords.no_duplicates()
        &&& forall|c: Chord| #[trigger]
            chords.contains(c) <==> self.resolved(ctx, c) == Some(action)
        &&& by_label(chords)
    }

    /// The chords of an action, each once, in the order of their labels.
    pub open spec fn lists(self, ctx: KeyContext, action: Action, chords: Seq<Chord>) -> bool {
        &&& chords.no_duplicates()
        &&& forall|c: Chord| #[trigger] chords.contains(c) <==> self.shows(ctx, action, c)
        &&& by_label(chords)
    }
}

/// The chords stand in the order of their labels.
pub open spec fn by_label(chords: Seq<Chord>) -> bool {
    forall|i: int, j: int|
        0 <= i < j < chords.len() ==> lex_le(
            chord_label(#[trigger] chords[i]),
            chord_label(#[trigger] chords[j]),
        )
}

/// The labels of chords.
pub open spec fn labels(chords: Seq<Chord>) -> Seq<Seq<char>> {
    chords.map_values(|c: Chord| chord_label(c))
}

/// The labels with a slash between each two; a dash where there are none.
pub open spec fn label_line(chords: Seq<Chord>) -> Seq<char> {
    if chords.len() == 0 {
        "\u{2014}"@
    } else {
        joined_with(labels(chords), "/"@)
    }
}

/// The bindings of the vim preset.
pub open spec fn vim_bindings() -> Seq<(Slot, Action)> {
    seq![
        at(KeyContext::Global, plain_chord(ChordCode::Char('?')), Action::Help),
        at(KeyContext::Global, ctrl_chord(ChordCode::Char('p')), Action::Palette),
        at(KeyContext::Reading, plain_chord(ChordCode::Char('j')), Action::ScrollDown),
        at(KeyContext::Reading, plain_chord(ChordCode::Down), Action::ScrollDown),
        at(KeyContext::Reading, plain_chord(ChordCode::Char('k')), Action::ScrollUp),
        at(KeyContext::Reading, plain_chord(ChordCode::Up), Action::ScrollUp),
        at(KeyContext::Reading, ctrl_chord(ChordCode::Char('d')), Action::HalfPageDown),
        at(KeyContext::Reading, ctrl_chord(ChordCode::Char('u')), Action::HalfPageUp),
        at(KeyContext::Reading, plain_chord(ChordCode::Char(' ')), Action::PageDown),
        at(KeyContext::Reading, latched_chord('g', 'g'), Action::ScrollTop),
        at(KeyContext::Reading, plain_chord(ChordCode::Char('G')), Action::ScrollBottom),
        at(KeyContext::Reading, plain_chord(ChordCode::Char(']')), Action::ScrollTablesRight),
        at(KeyContext::Reading, plain_chord(ChordCode::Char('[')), Action::ScrollTablesLeft),
        at(KeyContext::Reading, plain_chord(ChordCode::Tab), Action::LinkCycleNext),
        at(KeyContext::Reading, plain_chord(ChordCode::BackTab), Action::LinkCyclePrev),
        at(KeyContext::Reading, plain_chord(ChordCode::Char('f')), Action::LinkHints),
        at(KeyContext::Reading, plain_chord(ChordCode::Char('F')), Action::LinkHintsBackground),
        at(KeyContext::Reading, plain_chord(ChordCode::Enter), Action::FollowLink),
        at(KeyContext::Reading, ctrl_chord(ChordCode::Enter), Action::OpenBackgroundTab),
        at(KeyContext::Reading, plain_chord(ChordCode::Char('H')), Action::Back),
        at(KeyContext::Reading, plain_chord(ChordCode::Char('L')), Action::Forward),
        at(KeyContext::Reading, latched_chord('g', 'b'), Action::BackStackPicker),
        at(KeyContext::Reading, ctrl_chord(ChordCode::Char('h')), Action::ReadingHistory),
        at(KeyContext::Reading, latched_chord('g', 't'), Action::NextTab),
        at(KeyContext::Reading, latched_chord('g', 'T'), Action::PrevTab),
        at(KeyContext::Reading, latched_chord('b', 'b'), Action::TabPicker),
        at(KeyContext::Reading, plain_chord(ChordCode::Char('u')), Action::ReopenClosedTab),
        at(KeyContext::Reading, plain_chord(ChordCode::Char('q')), Action::CloseTab),
        at(KeyContext::Reading, plain_chord(ChordCode::Char('t')), Action::Toc),
        at(KeyContext::Reading, plain_chord(ChordCode::Char('T')), Action::TalkToggle),
        at(KeyContext::Reading, ctrl_chord(ChordCode::Char('t')), Action::CycleTheme),
        at(KeyContext::Reading, plain_chord(ChordCode::Char('/')), Action::Search),
        at(KeyContext::Reading, plain_chord(ChordCode::Char(':')), Action::CommandLine),
        at(KeyContext::Reading, plain_chord(ChordCode::Char('y')), Action::YankUrl),
        at(KeyContext::Reading, plain_chord(ChordCode::Char('Y')), Action::YankMarkdown),
        at(KeyContext::Reading, latched_chord('r', 'l'), Action::ReadLater),
        at(KeyContext::Reading, plain_chord(ChordCode::Char('r')), Action::Research),
        at(KeyContext::Reading, plain_chord(ChordCode::Char('m')), Action::BookmarkToggle),
        at(KeyContext::Reading, plain_chord(ChordCode::Char('B')), Action::BookmarkPicker),
        at(KeyContext::Reading, latched_chord('b', 'a'), Action::Annotate),
        at(KeyContext::Reading, plain_chord(ChordCode::Char('R')), Action::Library),
        at(KeyContext::Reading, ctrl_chord(ChordCode::Char('f')), Action::FindInPage),
        at(KeyContext::Reading, plain_chord(ChordCode::Char('n')), Action::FindNext),
        at(KeyContext::Reading, plain_chord(ChordCode::Char('N')), Action::FindPrev),
        at(KeyContext::Reading, plain_chord(ChordCode::Char('S')), Action::SaveOffline),
        at(KeyContext::Reading, latched_chord('g', 'r'), Action::RandomArticle),
        at(KeyContext::Reading, latched_chord('g', 'R'), Action::RelatedPanel),
        at(KeyContext::Reading, latched_chord('g', 'h'), Action::Home),
        at(KeyContext::Reading, plain_chord(ChordCode::Char('i')), Action::Info),
        at(KeyContext::Reading, plain_chord(ChordCode::Char('w')), Action::WatchToggle),
        at(KeyContext::Reading, latched_chord('g', 'W'), Action::WatchlistOpen),
        at(KeyContext::Reading, plain_chord(ChordCode::Char('K')), Action::Peek),
        at(KeyContext::Reading, latched_chord('z', 'z'), Action::IncognitoToggle),
        at(KeyContext::Reading, latched_chord('z', 'a'), Action::FoldToggle),
        at(KeyContext::Reading, latched_chord('z', 'M'), Action::FoldAll),
        at(KeyContext::Reading, latched_chord('z', 'R'), Action::UnfoldAll),
        at(KeyContext::Reading, latched_chord('g', 'K'), Action::JumpReferences),
        at(KeyContext::Reading, plain_chord(ChordCode::Char('Q')), Action::Quit),
        at(KeyContext::Picker, plain_chord(ChordCode::Char('j')), Action::MoveDown),
        at(KeyContext::Picker, plain_chord(ChordCode::Down), Action::MoveDown),
        at(KeyContext::Picker, plain_chord(ChordCode::Char('k')), Action::MoveUp),
        at(KeyContext::Picker, plain_chord(ChordCode::Up), Action::MoveUp),
        at(KeyContext::Picker, plain_chord(ChordCode::Enter), Action::Select),
        at(KeyContext::Picker, plain_chord(ChordCode::Esc), Action::Close),
    ]
}

/// The leader bindings of the presets.
pub open spec fn leader_bindings() -> Seq<(Chord, Action)> {
    seq![
        (plain_chord(ChordCode::Char('t')), Action::Toc),
        (plain_chord(ChordCode::Char('s')), Action::SaveOffline),
        (plain_chord(ChordCode::Char('w')), Action::WatchToggle),
        (plain_chord(ChordCode::Char('r')), Action::Research),
        (plain_chord(ChordCode::Char('d')), Action::Today),
        (plain_chord(ChordCode::Char('h')), Action::Home),
    ]
}

/// The vim preset: its bindings, and nothing over them.
pub open spec fn vim_model() -> KeymapModel {
    KeymapModel {
        base: map_of(vim_bindings()),
        overrides: Map::empty(),
        leader_key: DEFAULT_LEADER,
        leader: map_of(leader_bindings()),
    }
}

/// The emacs preset: the vim preset with three keys over it.
pub open spec fn emacs_model() -> KeymapModel {
    KeymapModel {
        overrides: Map::empty().insert(
            slot(KeyContext::Reading, ctrl_chord(ChordCode::Char('n'))),
            Action::ScrollDown,
        ).insert(
            slot(KeyContext::Reading, ctrl_chord(ChordCode::Char('v'))),
            Action::PageDown,
        ).insert(
            slot(KeyContext::Reading, ctrl_chord(ChordCode::Char('s'))),
            Action::Search,
        ),
        ..vim_model()
    }
}

/// A keymap: a preset's bindings, overrides over them, and a leader space.
#[derive(Debug)]
pub struct Keymap {
    base: Table<Slot>,
    overrides: Table<Slot>,
    leader_key: char,
    leader: Table<Chord>,
}

impl View for Keymap {
    type V = KeymapModel;

    closed spec fn view(&self) -> KeymapModel {
        KeymapModel {
            base: self.base@,
            overrides: self.overrides@,
            leader_key: self.leader_key,
            leader: self.leader@,
        }
    }
}

/// A keymap without bindings and without a leader key.
pub open spec fn empty_model() -> KeymapModel {
    KeymapModel {
        base: Map::empty(),
        overrides: Map::empty(),
        leader_key: '\0',
        leader: Map::empty(),
    }
}

impl Clone for Keymap {
    fn clone(&self) -> (r: Keymap)
        ensures
            r@ == self@,
    {
        Keymap {
            base: self.base.clone(),
            overrides: self.overrides.clone(),
            leader_key: self.leader_key,
            leader: self.leader.clone(),
        }
    }
}

impl Default for Keymap {
    fn default() -> (r: Keymap)
        ensures
            r@ == empty_model(),
    {
        Keymap {
            base: Table::new(),
            overrides: Table::new(),
            leader_key: '\0',
            leader: Table::new(),
        }
    }
}

fn bound(ctx: KeyContext, chord: Chord, action: Action) -> (r: (Slot, Action))
    ensures
        r == at(ctx, chord, action),
{
    (Slot { ctx, chord }, action)
}

fn layer_get(layer: &Table<Slot>, ctx: KeyContext, chord: &Chord) -> (r: Option<Action>)
    ensures
        r == layer_action(layer@, ctx, *chord),
{
    match layer.get(&Slot { ctx, chord: *chord }) {
        Some(a) => Some(a),
        None => layer.get(&Slot { ctx: KeyContext::Global, chord: *chord }),
    }
}

fn holds(chords: &Vec<Chord>, c: &Chord) -> (r: bool)
    ensures
        r == chords@.contains(*c),
{
    let n: usize = chords.len();
    for i in 0..n
        invariant
            n == chords.len(),
            forall|j: int| 0 <= j < i ==> chords@[j] != *c,
    {
        if chords[i].same(c) {
            assert(chords@[i as int] == *c);
            return true;
        }
    }
    false
}

/// Puts a chord into a list that stands in the order of labels, after those
/// whose labels come no later.
fn insert_by_label(list: &mut Vec<Chord>, c: Chord)
    requires
        by_label(old(list)@),
        old(list)@.no_duplicates(),
        !old(list)@.contains(c),
    ensures
        by_label(final(list)@),
        final(list)@.no_duplicates(),
        forall|d: Chord| #[trigger]
            final(list)@.contains(d) <==> old(list)@.contains(d) || d == c,
{
    let ghost before = list@;
    let label = c.label();
    let mut i: usize = list.len();
    while i > 0 && !str_le(list[i - 1].label().as_str(), label.as_str())
        invariant
            list@ == before,
            i <= list.len(),
            label@ == chord_label(c),
            forall|j: int|
                i <= j < before.len() ==> lex_le(chord_label(c), chord_label(#[trigger] before[j])),
        decreases i,
    {
        proof { lemma_lex_total(chord_label(before[i - 1]), chord_label(c)); }
        i = i - 1;
    }
    list.insert(i, c);
    proof {
        let after = list@;
        assert(after =~= before.insert(i as int, c));
        assert forall|a: int, b: int| 0 <= a < b < after.len() implies lex_le(
            chord_label(#[trigger] after[a]),
            chord_label(#[trigger] after[b]),
        ) by {
            if b == i {
                assert(after[a] == before[a]);
                if a < i - 1 {
                    lemma_lex_trans(
                        chord_label(before[a]),
                        chord_label(before[i - 1]),
                        chord_label(c),
                    );
                }
            } else if a == i {
                assert(after[b] == before[b - 1]);
            } else {
                let x = if a < i { a } else { a - 1 };
                let y = if b < i { b } else { b - 1 };
                assert(after[a] == before[x] && after[b] == before[y]);
            }
        }
        assert forall|d: Chord| #[trigger] after.contains(d) <==> before.contains(d) || d == c by {
            if before.contains(d) {
                let j = before.index_of(d);
                let k = if j < i { j } else { j + 1 };
                assert(after[k] == d);
            }
            if d == c {
                assert(after[i as int] == c);
            }
            if after.contains(d) {
                let k = after.index_of(d);
                if k < i {
                    assert(before[k] == d);
                } else if k > i {
                    assert(before[k - 1] == d);
                }
            }
        }
        assert forall|a: int, b: int|
            0 <= a < after.len() && 0 <= b < after.len() && a != b implies after[a] != after[b] by {
            let x = if a < i { a } else { a - 1 };
            let y = if b < i { b } else { b - 1 };
            if a != i && b != i {
                assert(after[a] == before[x] && after[b] == before[y]);
            } else if a == i {
                assert(before.contains(before[y]));
            } else {
                assert(before.contains(before[x]));
            }
        }
    }
}

/// Adds to a list the chords that a layer binds to an action in a context.
fn collect(layer: &Table<Slot>, ctx: KeyContext, action: Action, list: &mut Vec<Chord>)
    requires
        by_label(old(list)@),
        old(list)@.no_duplicates(),
    ensures
        by_label(final(list)@),
        final(list)@.no_duplicates(),
        forall|c: Chord| #[trigger]
            final(list)@.contains(c) <==> old(list)@.contains(c) || layer@.get(slot(ctx, c))
                == Some(action),
{
    let n: usize = layer.entries.len();
    let ghost before = list@;
    proof { use_type_invariant(layer); }
    for i in 0..n
        invariant
            n == layer.entries.len(),
            distinct_keys(layer.entries@),
            by_label(list@),
            list@.no_duplicates(),
            forall|c: Chord| before.contains(c) ==> list@.contains(c),
            forall|c: Chord| #[trigger]
                list@.contains(c) ==> before.contains(c) || layer@.get(slot(ctx, c)) == Some(action),
            forall|j: int|
                0 <= j < i && (#[trigger] layer.entries@[j]).0.ctx == ctx && layer.entries@[j].1
                    == action ==> list@.contains(layer.entries@[j].0.chord),
    {
        let entry = layer.entries[i];
        if entry.0.ctx == ctx && entry.1 == action && !holds(list, &entry.0.chord) {
            let ghost pre = list@;
            proof {
                lemma_map_entry(layer.entries@, i as int);
                assert(entry.0 == slot(ctx, entry.0.chord));
            }
            insert_by_label(list, entry.0.chord);
        }
    }
    proof {
        assert forall|c: Chord| layer@.get(slot(ctx, c)) == Some(action) implies list@.contains(
            c,
        ) by {
            lemma_map_keys(layer.entries@, slot(ctx, c));
            let j = choose|j: int|
                0 <= j < layer.entries@.len() && (#[trigger] layer.entries@[j]).0 == slot(ctx, c);
            lemma_map_entry(layer.entries@, j);
            assert(list@.contains(layer.entries@[j].0.chord));
        }
    }
}

impl Keymap {
    /// The vim preset.
    pub fn vim() -> (r: Keymap)
        ensures
            r@ == vim_model(),
    {
        let list: Vec<(Slot, Action)> = vec![
            bound(KeyContext::Global, Chord::ch('?'), Action::Help),
            bound(KeyContext::Global, Chord::ctrl_ch('p'), Action::Palette),
            bound(KeyContext::Reading, Chord::ch('j'), Action::ScrollDown),
            bound(KeyContext::Reading, Chord::key(ChordCode::Down), Action::ScrollDown),
            bound(KeyContext::Reading, Chord::ch('k'), Action::ScrollUp),
            bound(KeyContext::Reading, Chord::key(ChordCode::Up), Action::ScrollUp),
            bound(KeyContext::Reading, Chord::ctrl_ch('d'), Action::HalfPageDown),
            bound(KeyContext::Reading, Chord::ctrl_ch('u'), Action::HalfPageUp),
            bound(KeyContext::Reading, Chord::ch(' '), Action::PageDown),
            bound(KeyContext::Reading, Chord::prefixed('g', 'g'), Action::ScrollTop),
            bound(KeyContext::Reading, Chord::ch('G'), Action::ScrollBottom),
            bound(KeyContext::Reading, Chord::ch(']'), Action::ScrollTablesRight),
            bound(KeyContext::Reading, Chord::ch('['), Action::ScrollTablesLeft),
            bound(KeyContext::Reading, Chord::key(ChordCode::Tab), Action::LinkCycleNext),
            bound(KeyContext::Reading, Chord::key(ChordCode::BackTab), Action::LinkCyclePrev),
            bound(KeyContext::Reading, Chord::ch('f'), Action::LinkHints),
            bound(KeyContext::Reading, Chord::ch('F'), Action::LinkHintsBackground),
            bound(KeyContext::Reading, Chord::key(ChordCode::Enter), Action::FollowLink),
            bound(KeyContext::Reading, Chord::ctrl_code(ChordCode::Enter), Action::OpenBackgroundTab),
            bound(KeyContext::Reading, Chord::ch('H'), Action::Back),
            bound(KeyContext::Reading, Chord::ch('L'), Action::Forward),
            bound(KeyContext::Reading, Chord::prefixed('g', 'b'), Action::BackStackPicker),
            bound(KeyContext::Reading, Chord::ctrl_ch('h'), Action::ReadingHistory),
            bound(KeyContext::Reading, Chord::prefixed('g', 't'), Action::NextTab),
            bound(KeyContext::Reading, Chord::prefixed('g', 'T'), Action::PrevTab),
            bound(KeyContext::Reading, Chord::prefixed('b', 'b'), Action::TabPicker),
            bound(KeyContext::Reading, Chord::ch('u'), Action::ReopenClosedTab),
            bound(KeyContext::Reading, Chord::ch('q'), Action::CloseTab),
            bound(KeyContext::Reading, Chord::ch('t'), Action::Toc),
            bound(KeyContext::Reading, Chord::ch('T'), Action::TalkToggle),
            bound(KeyContext::Reading, Chord::ctrl_ch('t'), Action::CycleTheme),
            bound(KeyContext::Reading, Chord::ch('/'), Action::Search),
            bound(KeyContext::Reading, Chord::ch(':'), Action::CommandLine),
            bound(KeyContext::Reading, Chord::ch('y'), Action::YankUrl),
            bound(KeyContext::Reading, Chord::ch('Y'), Action::YankMarkdown),
            bound(KeyContext::Reading, Chord::prefixed('r', 'l'), Action::ReadLater),
            bound(KeyContext::Reading, Chord::ch('r'), Action::Research),
            bound(KeyContext::Reading, Chord::ch('m'), Action::BookmarkToggle),
            bound(KeyContext::Reading, Chord::ch('B'), Action::BookmarkPicker),
            bound(KeyContext::Reading, Chord::prefixed('b', 'a'), Action::Annotate),
            bound(KeyContext::Reading, Chord::ch('R'), Action::Library),
            bound(KeyContext::Reading, Chord::ctrl_ch('f'), Action::FindInPage),
            bound(KeyContext::Reading, Chord::ch('n'), Action::FindNext),
            bound(KeyContext::Reading, Chord::ch('N'), Action::FindPrev),
            bound(KeyContext::Reading, Chord::ch('S'), Action::SaveOffline),
            bound(KeyContext::Reading, Chord::prefixed('g', 'r'), Action::RandomArticle),
            bound(KeyContext::Reading, Chord::prefixed('g', 'R'), Action::RelatedPanel),
            bound(KeyContext::Reading, Chord::prefixed('g', 'h'), Action::Home),
            bound(KeyContext::Reading, Chord::ch('i'), Action::Info),
            bound(KeyContext::Reading, Chord::ch('w'), Action::WatchToggle),
            bound(KeyContext::Reading, Chord::prefixed('g', 'W'), Action::WatchlistOpen),
            bound(KeyContext::Reading, Chord::ch('K'), Action::Peek),
            bound(KeyContext::Reading, Chord::prefixed('z', 'z'), Action::IncognitoToggle),
            bound(KeyContext::Reading, Chord::prefixed('z', 'a'), Action::FoldToggle),
            bound(KeyContext::Reading, Chord::prefixed('z', 'M'), Action::FoldAll),
            bound(KeyContext::Reading, Chord::prefixed('z', 'R'), Action::UnfoldAll),
            bound(KeyContext::Reading, Chord::prefixed('g', 'K'), Action::JumpReferences),
            bound(KeyContext::Reading, Chord::ch('Q'), Action::Quit),
            bound(KeyContext::Picker, Chord::ch('j'), Action::MoveDown),
            bound(KeyContext::Picker, Chord::key(ChordCode::Down), Action::MoveDown),
            bound(KeyContext::Picker, Chord::ch('k'), Action::MoveUp),
            bound(KeyContext::Picker, Chord::key(ChordCode::Up), Action::MoveUp),
            bound(KeyContext::Picker, Chord::key(ChordCode::Enter), Action::Select),
            bound(KeyContext::Picker, Chord::key(ChordCode::Esc), Action::Close),
        ];
        proof { assert(list@ =~= vim_bindings()); }
        let after: Vec<(Chord, Action)> = vec![
            (Chord::ch('t'), Action::Toc),
            (Chord::ch('s'), Action::SaveOffline),
            (Chord::ch('w'), Action::WatchToggle),
            (Chord::ch('r'), Action::Research),
            (Chord::ch('d'), Action::Today),
            (Chord::ch('h'), Action::Home),
        ];
        proof { assert(after@ =~= leader_bindings()); }
        Keymap {
            base: Table::from_list(&list),
            overrides: Table::new(),
            leader_key: DEFAULT_LEADER,
            leader: Table::from_list(&after),
        }
    }

    /// The emacs preset: the vim preset with three keys over it.
    pub fn emacs() -> (r: Keymap)
        ensures
            r@ == emacs_model(),
    {
        let mut km = Keymap::vim();
        km.apply_override(KeyContext::Reading, Chord::ctrl_ch('n'), Action::ScrollDown);
        km.apply_override(KeyContext::Reading, Chord::ctrl_ch('v'), Action::PageDown);
        km.apply_override(KeyContext::Reading, Chord::ctrl_ch('s'), Action::Search);
        km
    }

    /// The preset of that name; any name but `emacs` gives the vim preset.
    pub fn preset(name: &str) -> (r: Keymap)
        ensures
            r@ == (if name@ == "emacs"@ {
                emacs_model()
            } else {
                vim_model()
            }),
    {
        if same_str(name, "emacs") {
            Keymap::emacs()
        } else {
            Keymap::vim()
        }
    }

    /// Adds or replaces a binding in the override layer.
    pub fn apply_override(&mut self, ctx: KeyContext, chord: Chord, action: Action)
        ensures
            final(self)@ == (KeymapModel {
                overrides: old(self)@.overrides.insert(slot(ctx, chord), action),
                ..old(self)@
            }),
    {
        self.overrides.insert(Slot { ctx, chord }, action);
    }

    /// Takes a binding out of the override layer, and says whether there was
    /// one. The preset's own bindings stay.
    pub fn remove_override(&mut self, ctx: KeyContext, chord: &Chord) -> (r: bool)
        ensures
            r == old(self)@.overrides.contains_key(slot(ctx, *chord)),
            final(self)@ == (KeymapModel {
                overrides: old(self)@.overrides.remove(slot(ctx, *chord)),
                ..old(self)@
            }),
    {
        self.overrides.remove(&Slot { ctx, chord: *chord })
    }

    /// The key that opens the leader space.
    pub fn leader_key(&self) -> (r: char)
        ensures
            r == self@.leader_key,
    {
        self.leader_key
    }

    /// Sets the key that opens the leader space.
    pub(crate) fn set_leader_key(&mut self, c: char)
        ensures
            final(self)@ == (KeymapModel { leader_key: c, ..old(self)@ }),
    {
        self.leader_key = c;
    }

    /// The action of a key pressed after the leader key.
    pub fn leader_action(&self, chord: &Chord) -> (r: Option<Action>)
        ensures
            r == self@.leader.get(*chord),
    {
        self.leader.get(chord)
    }

    /// Adds or replaces a leader binding.
    pub fn set_leader_binding(&mut self, chord: Chord, action: Action)
        ensures
            final(self)@ == (KeymapModel {
                leader: old(self)@.leader.insert(chord, action),
                ..old(self)@
            }),
    {
        self.leader.insert(chord, action);
    }

    /// Takes a leader binding away, and says whether there was one.
    pub fn remove_leader_binding(&mut self, chord: &Chord) -> (r: bool)
        ensures
            r == old(self)@.leader.contains_key(*chord),
            final(self)@ == (KeymapModel { leader: old(self)@.leader.remove(*chord), ..old(self)@ }),
    {
        self.leader.remove(chord)
    }

    /// The action of a chord: the overrides before the preset, and in each
    /// the context before `Global`.
    pub fn resolve(&self, ctx: KeyContext, chord: &Chord) -> (r: Option<Action>)
        ensures
            r == self@.resolved(ctx, *chord),
    {
        match layer_get(&self.overrides, ctx, chord) {
            Some(a) => Some(a),
            None => layer_get(&self.base, ctx, chord),
        }
    }

    /// The action that the override layer alone gives a chord.
    pub fn runtime_action(&self, ctx: KeyContext, chord: &Chord) -> (r: Option<Action>)
        ensures
            r == layer_action(self@.overrides, ctx, *chord),
    {
        layer_get(&self.overrides, ctx, chord)
    }

    /// Every chord that stands for an action in a context or globally, in
    /// either layer, in the order of the labels. Chords with one label may
    /// come in either order.
    pub fn bindings_for(&self, ctx: KeyContext, action: Action) -> (r: Vec<Chord>)
        ensures
            self@.lists(ctx, action, r@),
    {
        let mut out: Vec<Chord> = Vec::new();
        collect(&self.base, ctx, action, &mut out);
        collect(&self.base, KeyContext::Global, action, &mut out);
        collect(&self.overrides, ctx, action, &mut out);
        collect(&self.overrides, KeyContext::Global, action, &mut out);
        out
    }

    /// The chords that lead to an action, in the order of the labels: of those
    /// that are bound to it, the ones that nothing takes from it.
    fn live_bindings(&self, ctx: KeyContext, action: Action) -> (r: Vec<Chord>)
        ensures
            self@.leads(ctx, action, r@),
    {
        let all = self.bindings_for(ctx, action);
        let n: usize = all.len();
        let mut out: Vec<Chord> = Vec::new();
        for i in 0..n
            invariant
                n == all.len(),
                self@.lists(ctx, action, all@),
                out@.no_duplicates(),
                by_label(out@),
                forall|c: Chord| #[trigger]
                    out@.contains(c) <==> all@.take(i as int).contains(c) && self@.resolved(ctx, c)
                        == Some(action),
        {
            let ghost pre = out@;
            let ghost seen = all@.take(i as int);
            let ghost next = all@.take(i + 1);
            proof {
                assert(next =~= seen.push(all@[i as int]));
                assert(next[i as int] == all@[i as int]);
                if seen.contains(all@[i as int]) {
                    let k = choose|k: int| 0 <= k < seen.len() && seen[k] == all@[i as int];
                    assert(all@[k] == all@[i as int]);
                }
            }
            let found = match self.resolve(ctx, &all[i]) {
                Some(a) => a == action,
                None => false,
            };
            if found {
                out.push(all[i]);
            }
            proof {
                let last = all@[i as int];
                assert forall|c: Chord| #[trigger] out@.contains(c) implies next.contains(c)
                    && self@.resolved(ctx, c) == Some(action) by {
                    let k = choose|k: int| 0 <= k < out@.len() && out@[k] == c;
                    if k < pre.len() {
                        assert(pre[k] == c);
                        assert(pre.contains(c));
                        let m = choose|m: int| 0 <= m < seen.len() && seen[m] == c;
                        assert(next[m] == c);
                    } else {
                        assert(c == last);
                    }
                }
                assert forall|c: Chord|
                    next.contains(c) && self@.resolved(ctx, c) == Some(
                        action,
                    ) implies #[trigger] out@.contains(c) by {
                    let m = choose|m: int| 0 <= m < next.len() && next[m] == c;
                    if m < i {
                        assert(seen[m] == c);
                        assert(pre.contains(c));
                        let k = choose|k: int| 0 <= k < pre.len() && pre[k] == c;
                        assert(out@[k] == c);
                    } else {
                        assert(c == last);
                        assert(out@[pre.len() as int] == c);
                    }
                }
                assert forall|a: int, b: int| 0 <= a < b < out@.len() implies out@[a] != out@[b]
                    && lex_le(chord_label(#[trigger] out@[a]), chord_label(#[trigger] out@[b])) by {
                    if b == pre.len() {
                        assert(pre.contains(pre[a]));
                        let m = choose|m: int| 0 <= m < seen.len() && seen[m] == pre[a];
                        assert(all@[m] == pre[a]);
                    } else {
                        assert(pre[a] != pre[b]);
                        assert(lex_le(chord_label(pre[a]), chord_label(pre[b])));
                    }
                }
            }
        }
        proof {
            assert(all@.take(n as int) =~= all@);
            assert forall|c: Chord| #[trigger]
                out@.contains(c) <==> self@.resolved(ctx, c) == Some(action) by {
                bound_keys_lead_somewhere(self@, ctx, action, c);
                assert(all@.contains(c) <==> self@.shows(ctx, action, c));
            }
        }
        out
    }

    /// The keys of an action as one text: the labels of the chords that lead to
    /// it with a slash between each two, or a dash where none does.
    pub fn label_for(&self, ctx: KeyContext, action: Action) -> (r: String)
        ensures
            exists|chords: Seq<Chord>| #[trigger]
                self@.leads(ctx, action, chords) && r@ == label_line(chords),
    {
        let chords = self.live_bindings(ctx, action);
        if chords.len() == 0 {
            return "\u{2014}".to_owned();
        }
        let mut parts: Vec<String> = Vec::new();
        let n: usize = chords.len();
        for i in 0..n
            invariant
                n == chords.len(),
                views(parts@) == labels(chords@).take(i as int),
        {
            let ghost pre = parts@;
            parts.push(chords[i].label());
            proof {
                assert(views(parts@) =~= views(pre).push(chord_label(chords@[i as int])));
                assert(labels(chords@).take(i + 1) =~= labels(chords@).take(i as int).push(
                    labels(chords@)[i as int],
                ));
            }
        }
        proof { assert(labels(chords@).take(n as int) =~= labels(chords@)); }
        join_with(&parts, "/")
    }
}

/// An override in a view is what its chord does there, whatever the preset
/// binds.
pub proof fn override_wins(m: KeymapModel, ctx: KeyContext, chord: Chord, action: Action)
    ensures
        (KeymapModel { overrides: m.overrides.insert(slot(ctx, chord), action), ..m }).resolved(
            ctx,
            chord,
        ) == Some(action),
{
}

/// Taking a new override out again gives the keymap back as it was.
pub proof fn override_round_trips(m: KeymapModel, ctx: KeyContext, chord: Chord, action: Action)
    requires
        !m.overrides.contains_key(slot(ctx, chord)),
    ensures
        m.overrides.insert(slot(ctx, chord), action).remove(slot(ctx, chord)) == m.overrides,
{
    assert(m.overrides.insert(slot(ctx, chord), action).remove(slot(ctx, chord)) =~= m.overrides);
}

/// Taking a new leader binding out again gives the leader space back.
pub proof fn leader_binding_round_trips(m: KeymapModel, chord: Chord, action: Action)
    requires
        !m.leader.contains_key(chord),
    ensures
        m.leader.insert(chord, action).remove(chord) == m.leader,
{
    assert(m.leader.insert(chord, action).remove(chord) =~= m.leader);
}

/// The vim preset has no overrides, so it sends no key through them.
pub proof fn vim_overrides_nothing(ctx: KeyContext, chord: Chord)
    ensures
        layer_action(vim_model().overrides, ctx, chord) is None,
{
}

/// Where a view binds a chord in neither layer, the chord does there what it
/// does globally.
pub proof fn global_reaches_every_view(m: KeymapModel, ctx: KeyContext, chord: Chord)
    requires
        !m.overrides.contains_key(slot(ctx, chord)),
        !m.base.contains_key(slot(ctx, chord)),
    ensures
        m.resolved(ctx, chord) == m.resolved(KeyContext::Global, chord),
{
}

/// The emacs preset changes three keys of the reading view and no other.
pub proof fn emacs_changes_three_keys(ctx: KeyContext, chord: Chord)
    requires
        ctx != KeyContext::Reading || (chord != ctrl_chord(ChordCode::Char('n')) && chord
            != ctrl_chord(ChordCode::Char('v')) && chord != ctrl_chord(ChordCode::Char('s'))),
    ensures
        emacs_model().resolved(ctx, chord) == vim_model().resolved(ctx, chord),
{
}

/// A key that leads to an action is bound to it; and a key that is bound to one
/// action alone leads to it. Where a key is bound to two actions, in different
/// layers or contexts, it leads to one of them.
pub proof fn bound_keys_lead_somewhere(
    m: KeymapModel,
    ctx: KeyContext,
    action: Action,
    chord: Chord,
)
    ensures
        m.resolved(ctx, chord) == Some(action) ==> m.shows(ctx, action, chord),
        m.shows(ctx, action, chord) ==> m.resolved(ctx, chord) is Some && m.shows(
            ctx,
            m.resolved(ctx, chord)->0,
            chord,
        ),
        m.shows(ctx, action, chord) && (forall|other: Action|
            #[trigger] m.shows(ctx, other, chord) ==> other == action) ==> m.resolved(ctx, chord)
            == Some(action),
{
    if m.shows(ctx, action, chord) {
        assert(m.shows(ctx, m.resolved(ctx, chord)->0, chord));
    }
}

/// The presets bind nothing to the leader key, so it takes no binding away.
pub proof fn the_leader_key_is_free(ctx: KeyContext)
    ensures
        vim_model().resolved(ctx, plain_chord(ChordCode::Char(DEFAULT_LEADER))) is None,
        emacs_model().resolved(ctx, plain_chord(ChordCode::Char(DEFAULT_LEADER))) is None,
{
    let chord = plain_chord(ChordCode::Char(DEFAULT_LEADER));
    let list = vim_bindings();
    assert forall|i: int| 0 <= i < list.len() implies (#[trigger] list[i]).0.chord != chord by {
    }
    lemma_map_keys(list, slot(ctx, chord));
    lemma_map_keys(list, slot(KeyContext::Global, chord));
}

proof fn lemma_global_chords(chord: Chord)
    requires
        vim_model().base.contains_key(slot(KeyContext::Global, chord)),
    ensures
        chord == plain_chord(ChordCode::Char('?')) || chord == ctrl_chord(ChordCode::Char('p')),
{
    let list = vim_bindings();
    lemma_map_keys(list, slot(KeyContext::Global, chord));
    let i = choose|i: int|
        0 <= i < list.len() && (#[trigger] list[i]).0 == slot(KeyContext::Global, chord);
    assert(i < 2);
}

/// Every key that a preset lists under an action leads to it.
pub proof fn presets_list_live_keys(ctx: KeyContext, action: Action, chord: Chord)
    ensures
        vim_model().shows(ctx, action, chord) ==> vim_model().resolved(ctx, chord) == Some(action),
        emacs_model().shows(ctx, action, chord) ==> emacs_model().resolved(ctx, chord) == Some(
            action,
        ),
{
    let list = vim_bindings();
    let base = vim_model().base;
    if base.contains_key(slot(KeyContext::Global, chord)) {
        lemma_global_chords(chord);
        if ctx != KeyContext::Global {
            assert forall|i: int| 0 <= i < list.len() implies (#[trigger] list[i]).0 != slot(
                ctx,
                chord,
            ) by {
            }
            lemma_map_keys(list, slot(ctx, chord));
        }
    }
    if chord == ctrl_chord(ChordCode::Char('n')) || chord == ctrl_chord(ChordCode::Char('v'))
        || chord == ctrl_chord(ChordCode::Char('s')) {
        assert forall|i: int| 0 <= i < list.len() implies (#[trigger] list[i]).0.chord != chord by {
        }
        lemma_map_keys(list, slot(ctx, chord));
        lemma_map_keys(list, slot(KeyContext::Global, chord));
    }
}

/// The keys that are shown for an action lead to it, and are shown for no other.
pub proof fn shown_keys_are_accurate(
    m: KeymapModel,
    ctx: KeyContext,
    a: Action,
    keys_of_a: Seq<Chord>,
    b: Action,
    keys_of_b: Seq<Chord>,
    chord: Chord,
)
    requires
        m.leads(ctx, a, keys_of_a),
        m.leads(ctx, b, keys_of_b),
    ensures
        keys_of_a.contains(chord) <==> m.resolved(ctx, chord) == Some(a),
        keys_of_a.contains(chord) && keys_of_b.contains(chord) ==> a == b,
{
}

} // verus!
