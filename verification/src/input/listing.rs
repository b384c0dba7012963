//! The table of bound keys by action that `ink keybindings` prints: one row
//! per action id, ids in string order, each row's keys in string order.
use super::keymap::{KeyBinding, KeyCode, KeyMods};
use super::Action;
use crate::render::{decimal, push_decimal};
use crate::text::{chars_of, push_char};
use vstd::multiset::Multiset;
use vstd::prelude::*;

verus! {

broadcast use vstd::seq_lib::group_to_multiset_ensures;

/// String order: `a` comes before `b` or equals it, comparing characters
/// (code points) left to right, a proper prefix first.
pub open spec fn lex_le(a: Seq<char>, b: Seq<char>) -> bool
    decreases a.len(),
{
    if a.len() == 0 {
        true
    } else if b.len() == 0 {
        false
    } else if a[0] != b[0] {
        (a[0] as int) < (b[0] as int)
    } else {
        lex_le(a.drop_first(), b.drop_first())
    }
}

/// `a` comes strictly before `b` in string order.
pub open spec fn lex_lt(a: Seq<char>, b: Seq<char>) -> bool {
    !lex_le(b, a)
}

/// Strings in string order.
pub open spec fn ascending(s: Seq<Seq<char>>) -> bool {
    forall|i: int, j: int| 0 <= i < j < s.len() ==> lex_le(#[trigger] s[i], #[trigger] s[j])
}

/// String order is total.
pub proof fn lemma_lex_total(a: Seq<char>, b: Seq<char>)
    ensures
        lex_le(a, b) || lex_le(b, a),
    decreases a.len(),
{
    if a.len() > 0 && b.len() > 0 && a[0] == b[0] {
        lemma_lex_total(a.drop_first(), b.drop_first());
    }
}

/// String order is antisymmetric.
pub proof fn lemma_lex_antisymmetric(a: Seq<char>, b: Seq<char>)
    requires
        lex_le(a, b),
        lex_le(b, a),
    ensures
        a == b,
    decreases a.len(),
{
    if a.len() > 0 {
        lemma_lex_antisymmetric(a.drop_first(), b.drop_first());
        assert(a =~= seq![a[0]] + a.drop_first());
        assert(b =~= seq![b[0]] + b.drop_first());
    } else {
        assert(b.len() == 0);
        assert(a =~= b);
    }
}

/// String order is transitive.
pub proof fn lemma_lex_transitive(a: Seq<char>, b: Seq<char>, c: Seq<char>)
    requires
        lex_le(a, b),
        lex_le(b, c),
    ensures
        lex_le(a, c),
    decreases a.len(),
{
    if a.len() > 0 && b.len() > 0 && c.len() > 0 && a[0] == b[0] && b[0] == c[0] {
        lemma_lex_transitive(a.drop_first(), b.drop_first(), c.drop_first());
    }
}

/// Every string is in order with itself.
pub proof fn lemma_lex_reflexive(a: Seq<char>)
    ensures
        lex_le(a, a),
{
    lemma_lex_total(a, a);
}

/// Compares two strings in string order.
pub fn str_le(a: &str, b: &str) -> (r: bool)
    ensures
        r == lex_le(a@, b@),
{
    let x = chars_of(a);
    let y = chars_of(b);
    let mut i: usize = 0;
    assert(a@.skip(0) =~= a@ && b@.skip(0) =~= b@);
    while i < x.len() && i < y.len()
        invariant
            i <= x@.len(),
            i <= y@.len(),
            x@ == a@,
            y@ == b@,
            lex_le(a@, b@) == lex_le(a@.skip(i as int), b@.skip(i as int)),
        decreases x@.len() - i,
    {
        if x[i] != y[i] {
            return x[i] < y[i];
        }
        assert(a@.skip(i as int).drop_first() =~= a@.skip(i + 1));
        assert(b@.skip(i as int).drop_first() =~= b@.skip(i + 1));
        i = i + 1;
    }
    i == x.len()
}

/// Two strings sequences in string order holding the same strings (with
/// repetition) are the same sequence: sorting has exactly one outcome.
pub proof fn law_sorted_is_unique(a: Seq<Seq<char>>, b: Seq<Seq<char>>)
    requires
        ascending(a),
        ascending(b),
        a.to_multiset() == b.to_multiset(),
    ensures
        a == b,
    decreases a.len(),
{
    broadcast use vstd::seq_lib::to_multiset_contains, vstd::seq_lib::to_multiset_remove;

    if a.len() == 0 {
        assert(b.to_multiset().len() == 0);
        assert(b.len() == 0);
        assert(a =~= b);
    } else {
        vstd::seq_lib::to_multiset_len(a);
        vstd::seq_lib::to_multiset_len(b);
        assert(b.len() == a.len());
        assert(a.to_multiset().count(a[0]) > 0);
        assert(b.contains(a[0]));
        let j = choose|j: int| 0 <= j < b.len() && b[j] == a[0];
        if j > 0 {
            assert(lex_le(b[0], b[j]));
        } else {
            lemma_lex_reflexive(b[0]);
        }
        assert(b.to_multiset().count(b[0]) > 0);
        assert(a.contains(b[0]));
        let k = choose|k: int| 0 <= k < a.len() && a[k] == b[0];
        if k > 0 {
            assert(lex_le(a[0], a[k]));
        } else {
            lemma_lex_reflexive(a[0]);
        }
        lemma_lex_antisymmetric(a[0], b[0]);
        assert(a.remove(0) =~= a.drop_first());
        assert(b.remove(0) =~= b.drop_first());
        assert(a.remove(0).to_multiset() == a.to_multiset().remove(a[0]));
        assert(b.remove(0).to_multiset() == b.to_multiset().remove(b[0]));
        assert forall|i: int, m: int| 0 <= i < m < a.drop_first().len() implies lex_le(
            #[trigger] a.drop_first()[i],
            #[trigger] a.drop_first()[m],
        ) by {
            assert(lex_le(a[i + 1], a[m + 1]));
        }
        assert forall|i: int, m: int| 0 <= i < m < b.drop_first().len() implies lex_le(
            #[trigger] b.drop_first()[i],
            #[trigger] b.drop_first()[m],
        ) by {
            assert(lex_le(b[i + 1], b[m + 1]));
        }
        law_sorted_is_unique(a.drop_first(), b.drop_first());
        assert forall|i: int| 0 <= i < a.len() implies a[i] == b[i] by {
            if i > 0 {
                assert(a[i] == a.drop_first()[i - 1]);
                assert(b[i] == b.drop_first()[i - 1]);
            }
        }
        assert(a =~= b);
    }
}

/// The text of each string.
pub open spec fn texts(v: Seq<String>) -> Seq<Seq<char>> {
    v.map_values(|s: String| s@)
}

/// The same strings, in string order.
pub fn sort_strings(v: Vec<String>) -> (r: Vec<String>)
    ensures
        ascending(texts(r@)),
        texts(r@).to_multiset() == texts(v@).to_multiset(),
{
    let mut out: Vec<String> = Vec::new();
    let mut k: usize = 0;
    while k < v.len()
        invariant
            k <= v@.len(),
            ascending(texts(out@)),
            texts(out@).to_multiset() == texts(v@.take(k as int)).to_multiset(),
        decreases v@.len() - k,
    {
        let x = v[k].clone();
        let mut p: usize = 0;
        while p < out.len() && str_le(out[p].as_str(), x.as_str())
            invariant
                p <= out@.len(),
                forall|j: int| 0 <= j < p ==> lex_le(#[trigger] texts(out@)[j], x@),
            decreases out@.len() - p,
        {
            p = p + 1;
        }
        let ghost before = texts(out@);
        out.insert(p, x);
        proof {
            assert(texts(out@) =~= before.insert(p as int, x@));
            assert(texts(v@.take(k + 1)) =~= texts(v@.take(k as int)).push(x@));
            assert forall|i: int, j: int| 0 <= i < j < texts(out@).len() implies lex_le(
                #[trigger] texts(out@)[i],
                #[trigger] texts(out@)[j],
            ) by {
                if p < before.len() {
                    lemma_lex_total(before[p as int], x@);
                }
                if i < p && j == p {
                } else if i == p && j > p {
                    if j - 1 > p {
                        assert(lex_le(before[p as int], before[j - 1]));
                    } else {
                        lemma_lex_reflexive(before[p as int]);
                    }
                    lemma_lex_transitive(x@, before[p as int], before[j - 1]);
                } else if i < p && j > p {
                    assert(lex_le(before[i], before[j - 1]));
                } else if i > p {
                    assert(lex_le(before[i - 1], before[j - 1]));
                } else {
                    assert(lex_le(before[i], before[j]));
                }
            }
        }
        k = k + 1;
    }
    assert(v@.take(v@.len() as int) =~= v@);
    out
}

/// The id an action is listed under: its config id, or `?` for actions no
/// key string can be bound to.
pub open spec fn action_id_of(a: Action) -> Seq<char> {
    match a {
        Action::ExitApp => "exit_app"@,
        Action::CloseDoc => "close_doc"@,
        Action::OpenBrowser => "open_browser"@,
        Action::ScrollUp(n) => if n == 1 {
            "scroll_up"@
        } else {
            "scroll_up_fast"@
        },
        Action::ScrollDown(n) => if n == 1 {
            "scroll_down"@
        } else {
            "scroll_down_fast"@
        },
        Action::PageUp => "page_up"@,
        Action::PageDown => "page_down"@,
        Action::Home => "home"@,
        Action::End => "end"@,
        Action::NextHeading => "next_heading"@,
        Action::PrevHeading => "prev_heading"@,
        Action::NextTab => "next_tab"@,
        Action::PrevTab => "prev_tab"@,
        Action::ToggleToc => "toggle_toc"@,
        Action::Search => "search"@,
        Action::ThemePicker => "theme_picker"@,
        Action::FollowLink => "follow_link"@,
        Action::NavBack => "nav_back"@,
        Action::NavForward => "nav_forward"@,
        _ => "?"@,
    }
}

/// The id an action is listed under.
pub fn action_id(a: Action) -> (s: &'static str)
    ensures
        s@ == action_id_of(a),
{
    match a {
        Action::ExitApp => "exit_app",
        Action::CloseDoc => "close_doc",
        Action::OpenBrowser => "open_browser",
        Action::ScrollUp(n) => if n == 1 {
            "scroll_up"
        } else {
            "scroll_up_fast"
        },
        Action::ScrollDown(n) => if n == 1 {
            "scroll_down"
        } else {
            "scroll_down_fast"
        },
        Action::PageUp => "page_up",
        Action::PageDown => "page_down",
        Action::Home => "home",
        Action::End => "end",
        Action::NextHeading => "next_heading",
        Action::PrevHeading => "prev_heading",
        Action::NextTab => "next_tab",
        Action::PrevTab => "prev_tab",
        Action::ToggleToc => "toggle_toc",
        Action::Search => "search",
        Action::ThemePicker => "theme_picker",
        Action::FollowLink => "follow_link",
        Action::NavBack => "nav_back",
        Action::NavForward => "nav_forward",
        _ => "?",
    }
}

/// The name a key is listed under: `space`, the character itself, a
/// lowercase key name, or `f(n)` for a function key.
pub open spec fn key_name_of(code: KeyCode) -> Seq<char> {
    match code {
        KeyCode::Char(c) => if c == ' ' {
            "space"@
        } else {
            seq![c]
        },
        KeyCode::Esc => "esc"@,
        KeyCode::Enter => "enter"@,
        KeyCode::Tab => "tab"@,
        KeyCode::BackTab => "backtab"@,
        KeyCode::PageUp => "pageup"@,
        KeyCode::PageDown => "pagedown"@,
        KeyCode::Home => "home"@,
        KeyCode::End => "end"@,
        KeyCode::Up => "up"@,
        KeyCode::Down => "down"@,
        KeyCode::Left => "left"@,
        KeyCode::Right => "right"@,
        KeyCode::Backspace => "backspace"@,
        KeyCode::Delete => "delete"@,
        KeyCode::Insert => "insert"@,
        KeyCode::F(n) => seq!['f', '('] + decimal(n as nat) + seq![')'],
    }
}

/// The modifiers as written before a key: `ctrl-`, `alt-`, `shift-`, in
/// that order.
pub open spec fn mods_prefix(m: KeyMods) -> Seq<char> {
    (if m.control {
        "ctrl-"@
    } else {
        Seq::empty()
    }) + (if m.alt {
        "alt-"@
    } else {
        Seq::empty()
    }) + (if m.shift {
        "shift-"@
    } else {
        Seq::empty()
    })
}

/// A keypress as listed: its modifiers, then its key name.
pub open spec fn key_label_of(kb: KeyBinding) -> Seq<char> {
    mods_prefix(kb.1) + key_name_of(kb.0)
}

/// A keypress as listed, e.g. `ctrl-alt-down` or `G`.
pub fn key_label(kb: KeyBinding) -> (s: String)
    ensures
        s@ == key_label_of(kb),
{
    let mut s = String::new();
    if kb.1.control {
        s.append("ctrl-");
    }
    if kb.1.alt {
        s.append("alt-");
    }
    if kb.1.shift {
        s.append("shift-");
    }
    let ghost pre = s@;
    assert(pre == mods_prefix(kb.1));
    match kb.0 {
        KeyCode::Char(c) => if c == ' ' {
            s.append("space");
        } else {
            push_char(&mut s, c);
            assert(s@ =~= pre + seq![c]);
        },
        KeyCode::Esc => s.append("esc"),
        KeyCode::Enter => s.append("enter"),
        KeyCode::Tab => s.append("tab"),
        KeyCode::BackTab => s.append("backtab"),
        KeyCode::PageUp => s.append("pageup"),
        KeyCode::PageDown => s.append("pagedown"),
        KeyCode::Home => s.append("home"),
        KeyCode::End => s.append("end"),
        KeyCode::Up => s.append("up"),
        KeyCode::Down => s.append("down"),
        KeyCode::Left => s.append("left"),
        KeyCode::Right => s.append("right"),
        KeyCode::Backspace => s.append("backspace"),
        KeyCode::Delete => s.append("delete"),
        KeyCode::Insert => s.append("insert"),
        KeyCode::F(n) => {
            push_char(&mut s, 'f');
            push_char(&mut s, '(');
            push_decimal(&mut s, n as u16);
            push_char(&mut s, ')');
            assert(s@ =~= pre + (seq!['f', '('] + decimal(n as nat) + seq![')']));
        },
    }
    s
}

/// Each binding as (action id, key label).
pub open spec fn listed(km: Seq<(KeyBinding, Action)>) -> Seq<(Seq<char>, Seq<char>)> {
    km.map_values(|e: (KeyBinding, Action)| (action_id_of(e.1), key_label_of(e.0)))
}

/// A chord's label: its two keys' labels, a space between.
pub open spec fn chord_label_of(a: KeyBinding, b: KeyBinding) -> Seq<char> {
    key_label_of(a) + seq![' '] + key_label_of(b)
}

/// Each single binding, then each chord, as (action id, key label).
pub open spec fn listed_all(km: Seq<(KeyBinding, Action)>, chords: Seq<(KeyBinding, KeyBinding, Action)>) -> Seq<
    (Seq<char>, Seq<char>),
> {
    listed(km) + chords.map_values(
        |c: (KeyBinding, KeyBinding, Action)| (action_id_of(c.2), chord_label_of(c.0, c.1)),
    )
}

/// The label of a chord.
pub fn chord_label(a: KeyBinding, b: KeyBinding) -> (s: String)
    ensures
        s@ == chord_label_of(a, b),
{
    let mut s = key_label(a);
    push_char(&mut s, ' ');
    let second = key_label(b);
    s.append(second.as_str());
    s
}

/// The key labels listed under `id`, counted with repetition.
pub open spec fn labels_for(p: Seq<(Seq<char>, Seq<char>)>, id: Seq<char>) -> Multiset<Seq<char>>
    decreases p.len(),
{
    if p.len() == 0 {
        Multiset::empty()
    } else if p.last().0 == id {
        labels_for(p.drop_last(), id).insert(p.last().1)
    } else {
        labels_for(p.drop_last(), id)
    }
}

/// Rows of (action id, key labels) as text.
pub open spec fn rows_view(rows: Seq<(String, Vec<String>)>) -> Seq<(Seq<char>, Seq<Seq<char>>)> {
    rows.map_values(|r: (String, Vec<String>)| (r.0@, texts(r.1@)))
}

/// `rows` lists the pairs `p`: one row per action id occurring in `p`, ids
/// in strictly ascending string order, and each row holding exactly the
/// labels listed under its id, in ascending string order.
pub open spec fn is_listing(p: Seq<(Seq<char>, Seq<char>)>, rows: Seq<(Seq<char>, Seq<Seq<char>>)>) -> bool {
    &&& forall|i: int, j: int|
        #![trigger rows[i], rows[j]]
        0 <= i < j < rows.len() ==> lex_lt(rows[i].0, rows[j].0)
    &&& forall|i: int|
        #![trigger rows[i]]
        0 <= i < rows.len() ==> rows[i].1.len() > 0 && ascending(rows[i].1)
            && rows[i].1.to_multiset() == labels_for(p, rows[i].0)
    &&& forall|k: int| 0 <= k < p.len() ==> has_row(rows, #[trigger] p[k].0)
}

/// Some row of `rows` has id `id`.
pub open spec fn has_row(rows: Seq<(Seq<char>, Seq<Seq<char>>)>, id: Seq<char>) -> bool {
    exists|i: int| 0 <= i < rows.len() && #[trigger] rows[i].0 == id
}

/// Strict string order is transitive.
proof fn lemma_lt_transitive(a: Seq<char>, b: Seq<char>, c: Seq<char>)
    requires
        lex_lt(a, b),
        lex_lt(b, c),
    ensures
        lex_lt(a, c),
{
    lemma_lex_total(a, b);
    if lex_le(c, a) {
        lemma_lex_transitive(c, a, b);
    }
}

/// Strict string order is irreflexive.
proof fn lemma_lt_irreflexive(a: Seq<char>, b: Seq<char>)
    requires
        lex_lt(a, b),
    ensures
        a != b,
{
    lemma_lex_reflexive(a);
}

/// The bound keys grouped by action id: one row per id, ids in ascending
/// string order, each row's key labels in ascending string order.
pub fn keybinding_rows(km: &Vec<(KeyBinding, Action)>, chords: &Vec<(KeyBinding, KeyBinding, Action)>) -> (rows: Vec<
    (String, Vec<String>),
>)
    requires
        km@.len() + chords@.len() <= usize::MAX,
    ensures
        is_listing(listed_all(km@, chords@), rows_view(rows@)),
{
    let ghost p = listed_all(km@, chords@);
    let total = km.len() + chords.len();
    let mut ids: Vec<String> = Vec::new();
    let mut keys: Vec<Vec<String>> = Vec::new();
    let mut k: usize = 0;
    while k < total
        invariant
            total == km@.len() + chords@.len(),
            p.len() == total,
            k <= total,
            p == listed_all(km@, chords@),
            ids@.len() == keys@.len(),
            forall|i: int, j: int|
                0 <= i < j < ids@.len() ==> lex_lt(#[trigger] ids@[i]@, #[trigger] ids@[j]@),
            forall|i: int|
                0 <= i < keys@.len() ==> (#[trigger] keys@[i])@.len() > 0 && texts(keys@[i]@).to_multiset()
                    == labels_for(p.take(k as int), ids@[i]@),
            forall|q: int|
                0 <= q < k ==> exists|i: int| 0 <= i < ids@.len() && #[trigger] ids@[i]@ == #[trigger] p[q].0,
            forall|x: Seq<char>|
                (forall|i: int| 0 <= i < ids@.len() ==> ids@[i]@ != x) ==> #[trigger] labels_for(
                    p.take(k as int),
                    x,
                ) == Multiset::<Seq<char>>::empty(),
        decreases total - k,
    {
        let (id, label) = if k < km.len() {
            (String::from_str(action_id(km[k].1)), key_label(km[k].0))
        } else {
            let c = chords[k - km.len()];
            (String::from_str(action_id(c.2)), chord_label(c.0, c.1))
        };
        assert(p[k as int] == (id@, label@));
        let ghost pk = p.take(k as int);
        let ghost pk1 = p.take(k + 1);
        proof {
            assert(pk1.drop_last() =~= pk);
            assert(pk1.last() == (id@, label@));
            assert forall|x: Seq<char>| #[trigger] labels_for(pk1, x) == (if x == id@ {
                labels_for(pk, x).insert(label@)
            } else {
                labels_for(pk, x)
            }) by {}
        }
        let ghost old_ids = ids@;
        let ghost old_keys = keys@;
        let mut i: usize = 0;
        let mut found = false;
        while i < ids.len()
            invariant_except_break
                !found,
            invariant
                i <= ids@.len(),
                ids@ == old_ids,
                forall|j: int| 0 <= j < i ==> lex_lt(#[trigger] ids@[j]@, id@),
            ensures
                i <= ids@.len(),
                ids@ == old_ids,
                forall|j: int| 0 <= j < i ==> lex_lt(#[trigger] ids@[j]@, id@),
                found ==> i < ids@.len() && ids@[i as int]@ == id@,
                !found ==> (i < ids@.len() ==> lex_le(id@, ids@[i as int]@) && ids@[i as int]@ != id@),
            decreases ids@.len() - i,
        {
            if ids[i] == id {
                found = true;
                break;
            }
            if str_le(id.as_str(), ids[i].as_str()) {
                break;
            }
            i = i + 1;
        }
        if found {
            let mut row = keys.remove(i);
            row.push(label);
            keys.insert(i, row);
            proof {
                assert(texts(row@) =~= texts(old_keys[i as int]@).push(label@));
                assert(keys@ =~= old_keys.update(i as int, row));
                assert forall|j: int| 0 <= j < keys@.len() implies (#[trigger] keys@[j])@.len() > 0
                    && texts(keys@[j]@).to_multiset() == labels_for(pk1, ids@[j]@) by {
                    if j != i {
                        assert(keys@[j] == old_keys[j]);
                        if j < i {
                            assert(lex_lt(ids@[j]@, ids@[i as int]@));
                            lemma_lt_irreflexive(ids@[j]@, ids@[i as int]@);
                        } else {
                            assert(lex_lt(ids@[i as int]@, ids@[j]@));
                            lemma_lt_irreflexive(ids@[i as int]@, ids@[j]@);
                        }
                    } else {
                        assert(keys@[j] == row);
                        assert(texts(row@).to_multiset() =~= texts(old_keys[j]@).to_multiset().insert(label@));
                        assert(texts(old_keys[j]@).to_multiset() == labels_for(pk, old_ids[j]@));
                        assert(old_ids[j]@ == id@);
                        assert(labels_for(pk1, id@) == labels_for(pk, id@).insert(label@));
                    }
                }
                assert forall|q: int| 0 <= q < k + 1 implies exists|j: int|
                    0 <= j < ids@.len() && #[trigger] ids@[j]@ == #[trigger] p[q].0 by {
                    if q == k {
                        assert(ids@[i as int]@ == p[q].0);
                    }
                }
            }
        } else {
            let ghost at = i;
            proof {
                if i < ids@.len() {
                    assert(!(ids@[i as int]@ == id@));
                    lemma_lex_total(id@, ids@[i as int]@);
                    if lex_le(ids@[i as int]@, id@) {
                        lemma_lex_antisymmetric(id@, ids@[i as int]@);
                    }
                    assert(lex_lt(id@, ids@[i as int]@));
                }
                assert forall|j: int| 0 <= j < old_ids.len() implies old_ids[j]@ != id@ by {
                    if j < i {
                        lemma_lt_irreflexive(old_ids[j]@, id@);
                    } else {
                        if j > i {
                            assert(lex_lt(old_ids[i as int]@, old_ids[j]@));
                            lemma_lt_transitive(id@, old_ids[i as int]@, old_ids[j]@);
                        }
                        lemma_lt_irreflexive(id@, old_ids[j]@);
                    }
                }
                assert(labels_for(pk, id@) == Multiset::<Seq<char>>::empty());
            }
            let mut row: Vec<String> = Vec::new();
            row.push(label);
            ids.insert(i, id);
            keys.insert(i, row);
            proof {
                assert(texts(row@) =~= seq![label@]);
                assert(seq![label@] =~= Seq::<Seq<char>>::empty().push(label@));
                assert(Seq::<Seq<char>>::empty().to_multiset() =~= Multiset::<Seq<char>>::empty());
                assert forall|a: int, b: int| 0 <= a < b < ids@.len() implies lex_lt(
                    #[trigger] ids@[a]@,
                    #[trigger] ids@[b]@,
                ) by {
                    if a < i && b == i {
                    } else if a == i && b > i {
                        if b - 1 > i {
                            assert(lex_lt(old_ids[i as int]@, old_ids[b - 1]@));
                            lemma_lt_transitive(id@, old_ids[i as int]@, old_ids[b - 1]@);
                        }
                    } else if a < i && b > i {
                        assert(lex_lt(old_ids[a]@, old_ids[b - 1]@));
                    } else if a > i {
                        assert(lex_lt(old_ids[a - 1]@, old_ids[b - 1]@));
                    } else {
                        assert(lex_lt(old_ids[a]@, old_ids[b]@));
                    }
                }
                assert forall|j: int| 0 <= j < keys@.len() implies (#[trigger] keys@[j])@.len() > 0
                    && texts(keys@[j]@).to_multiset() == labels_for(pk1, ids@[j]@) by {
                    if j < i {
                        assert(keys@[j] == old_keys[j] && ids@[j] == old_ids[j]);
                    } else if j > i {
                        assert(keys@[j] == old_keys[j - 1] && ids@[j] == old_ids[j - 1]);
                    }
                }
                assert forall|q: int| 0 <= q < k + 1 implies exists|j: int|
                    0 <= j < ids@.len() && #[trigger] ids@[j]@ == #[trigger] p[q].0 by {
                    if q == k {
                        assert(ids@[i as int]@ == p[q].0);
                    } else {
                        let w = choose|j: int| 0 <= j < old_ids.len() && #[trigger] old_ids[j]@ == p[q].0;
                        if w < i {
                            assert(ids@[w]@ == p[q].0);
                        } else {
                            assert(ids@[w + 1]@ == p[q].0);
                        }
                    }
                }
                assert forall|x: Seq<char>|
                    (forall|j: int| 0 <= j < ids@.len() ==> ids@[j]@ != x) implies #[trigger] labels_for(
                    pk1,
                    x,
                ) == Multiset::<Seq<char>>::empty() by {
                    assert(ids@[i as int]@ == id@);
                    assert forall|j: int| 0 <= j < old_ids.len() implies old_ids[j]@ != x by {
                        if j < i {
                            assert(ids@[j] == old_ids[j]);
                        } else {
                            assert(ids@[j + 1] == old_ids[j]);
                        }
                    }
                }
            }
        }
        k = k + 1;
    }
    assert(p.take(total as int) =~= p);
    let mut rows: Vec<(String, Vec<String>)> = Vec::new();
    let ghost all_ids = ids@;
    let ghost all_keys = keys@;
    let mut n: usize = 0;
    assert(all_ids.len() == ids.len());
    while ids.len() > 0
        invariant
            all_ids.len() <= usize::MAX,
            all_keys.len() == all_ids.len(),
            ids@.len() == keys@.len(),
            n + ids@.len() == all_ids.len(),
            ids@ == all_ids.skip(n as int),
            keys@ == all_keys.skip(n as int),
            rows@.len() == n,
            forall|i: int| 0 <= i < n ==> {
                &&& (#[trigger] rows_view(rows@)[i]).0 == all_ids[i]@
                &&& ascending(rows_view(rows@)[i].1)
                &&& rows_view(rows@)[i].1.to_multiset() == texts(all_keys[i]@).to_multiset()
            },
        decreases ids@.len(),
    {
        let ghost ids0 = ids@;
        let ghost keys0 = keys@;
        let id = ids.remove(0);
        let ks = keys.remove(0);
        proof {
            assert(ids@ =~= ids0.remove(0));
            assert(keys@ =~= keys0.remove(0));
            assert(ids0.remove(0) =~= all_ids.skip(n + 1));
            assert(keys0.remove(0) =~= all_keys.skip(n + 1));
            assert(ks == all_keys[n as int]);
            assert(id == all_ids[n as int]);
        }
        let sorted = sort_strings(ks);
        let ghost rows0 = rows@;
        rows.push((id, sorted));
        proof {
            assert(rows_view(rows@) =~= rows_view(rows0).push((all_ids[n as int]@, texts(sorted@))));
        }
        n = n + 1;
    }
    proof {
        let rv = rows_view(rows@);
        assert forall|i: int, j: int|
            #![trigger rv[i], rv[j]]
            0 <= i < j < rv.len() implies lex_lt(rv[i].0, rv[j].0) by {
            assert(rv[i].0 == all_ids[i]@ && rv[j].0 == all_ids[j]@);
        }
        assert forall|i: int|
            #![trigger rv[i]]
            0 <= i < rv.len() implies rv[i].1.len() > 0 && ascending(rv[i].1)
                && rv[i].1.to_multiset() == labels_for(p, rv[i].0) by {
            assert(all_keys[i]@.len() > 0);
            assert(texts(all_keys[i]@).len() > 0);
            assert(texts(all_keys[i]@).to_multiset().len() > 0);
            assert(rv[i].1.to_multiset().len() > 0);
        }
        assert forall|k: int| 0 <= k < p.len() implies has_row(rv, #[trigger] p[k].0) by {
            let w = choose|j: int| 0 <= j < all_ids.len() && #[trigger] all_ids[j]@ == p[k].0;
            assert(rv[w].0 == p[k].0);
        }
        assert(is_listing(p, rv));
    }
    rows
}

/// `s` padded with spaces on the right to `w` characters.
pub open spec fn padded(s: Seq<char>, w: nat) -> Seq<char> {
    if s.len() < w {
        s + Seq::new((w - s.len()) as nat, |_i: int| ' ')
    } else {
        s
    }
}

/// Key labels separated by `, `.
pub open spec fn joined(keys: Seq<Seq<char>>) -> Seq<char>
    decreases keys.len(),
{
    if keys.len() == 0 {
        Seq::empty()
    } else if keys.len() == 1 {
        keys[0]
    } else {
        joined(keys.drop_last()) + seq![',', ' '] + keys.last()
    }
}

/// The width of the action column.
pub const ACTION_COLUMN: usize = 22;

/// One row as printed: the id padded to the action column, a space, the
/// keys.
pub open spec fn row_line(row: (Seq<char>, Seq<Seq<char>>)) -> Seq<char> {
    padded(row.0, ACTION_COLUMN as nat) + seq![' '] + joined(row.1)
}

/// The printed table: a header, an underline, then one line per row.
pub open spec fn listing_text(rows: Seq<(Seq<char>, Seq<Seq<char>>)>) -> Seq<Seq<char>> {
    seq![
        padded("Action"@, ACTION_COLUMN as nat) + seq![' '] + "Keys"@,
        padded("------"@, ACTION_COLUMN as nat) + seq![' '] + "----"@,
    ] + rows.map_values(|r: (Seq<char>, Seq<Seq<char>>)| row_line(r))
}

/// `head` padded to the action column, a space, then `tail`.
fn column_line(head: &str, tail: &str) -> (s: String)
    ensures
        s@ == padded(head@, ACTION_COLUMN as nat) + seq![' '] + tail@,
{
    let mut s = String::from_str(head);
    let n = chars_of(head).len();
    let mut k: usize = n;
    while k < ACTION_COLUMN
        invariant
            n == head@.len(),
            n <= k,
            n < ACTION_COLUMN ==> k <= ACTION_COLUMN,
            n >= ACTION_COLUMN ==> k == n,
            s@ == head@ + Seq::new((k - n) as nat, |_i: int| ' '),
        decreases ACTION_COLUMN - k,
    {
        push_char(&mut s, ' ');
        assert(s@ =~= head@ + Seq::new((k + 1 - n) as nat, |_i: int| ' '));
        k = k + 1;
    }
    if n >= ACTION_COLUMN {
        assert(s@ =~= head@);
    }
    push_char(&mut s, ' ');
    s.append(tail);
    assert(s@ =~= padded(head@, ACTION_COLUMN as nat) + seq![' '] + tail@);
    s
}

/// Key labels separated by `, `.
fn join_keys(keys: &Vec<String>) -> (s: String)
    ensures
        s@ == joined(texts(keys@)),
{
    let ghost t = texts(keys@);
    let mut s = String::new();
    let mut j: usize = 0;
    while j < keys.len()
        invariant
            j <= keys@.len(),
            t == texts(keys@),
            s@ == joined(t.take(j as int)),
        decreases keys@.len() - j,
    {
        proof {
            assert(t.take(j + 1).drop_last() =~= t.take(j as int));
        }
        if j > 0 {
            s.append(", ");
        }
        s.append(keys[j].as_str());
        proof {
            if j == 0 {
                assert(s@ =~= t.take(1)[0]);
            } else {
                reveal_strlit(", ");
                assert(s@ =~= joined(t.take(j as int)) + seq![',', ' '] + t.take(j + 1).last());
            }
        }
        j = j + 1;
    }
    assert(t.take(keys@.len() as int) =~= t);
    s
}

/// The table as printed: a header, an underline, then one line per row with
/// the action id padded to the action column and its keys separated by
/// `, `.
pub fn listing_lines(rows: &Vec<(String, Vec<String>)>) -> (lines: Vec<String>)
    ensures
        texts(lines@) == listing_text(rows_view(rows@)),
{
    let mut lines: Vec<String> = Vec::new();
    lines.push(column_line("Action", "Keys"));
    lines.push(column_line("------", "----"));
    let ghost rv = rows_view(rows@);
    let mut i: usize = 0;
    while i < rows.len()
        invariant
            i <= rows@.len(),
            rv == rows_view(rows@),
            lines@.len() == i + 2,
            texts(lines@) == listing_text(rv.take(i as int)),
        decreases rows@.len() - i,
    {
        let keys = join_keys(&rows[i].1);
        let line = column_line(rows[i].0.as_str(), keys.as_str());
        let ghost before = texts(lines@);
        lines.push(line);
        proof {
            assert(texts(lines@) =~= before.push(row_line(rv[i as int])));
            assert(listing_text(rv.take(i + 1)) =~= listing_text(rv.take(i as int)).push(row_line(rv[i as int])));
        }
        i = i + 1;
    }
    assert(rv.take(rows@.len() as int) =~= rv);
    lines
}

/// An id with labels listed under it occurs in the pairs.
proof fn lemma_labels_occur(p: Seq<(Seq<char>, Seq<char>)>, id: Seq<char>)
    requires
        labels_for(p, id).len() > 0,
    ensures
        exists|k: int| 0 <= k < p.len() && #[trigger] p[k].0 == id,
    decreases p.len(),
{
    if p.len() > 0 {
        if p.last().0 == id {
            assert(p[p.len() - 1].0 == id);
        } else {
            lemma_labels_occur(p.drop_last(), id);
            let k = choose|k: int| 0 <= k < p.drop_last().len() && #[trigger] p.drop_last()[k].0 == id;
            assert(p[k].0 == id);
        }
    }
}

/// The ids of rows.
pub open spec fn row_ids(rows: Seq<(Seq<char>, Seq<Seq<char>>)>) -> Seq<Seq<char>> {
    rows.map_values(|r: (Seq<char>, Seq<Seq<char>>)| r.0)
}

/// The ids of a listing: strictly ascending, and exactly the ids of the pairs.
proof fn lemma_listing_ids(p: Seq<(Seq<char>, Seq<char>)>, rows: Seq<(Seq<char>, Seq<Seq<char>>)>)
    requires
        is_listing(p, rows),
    ensures
        ascending(row_ids(rows)),
        row_ids(rows).no_duplicates(),
        forall|x: Seq<char>| row_ids(rows).contains(x) <==> exists|k: int| 0 <= k < p.len() && #[trigger] p[k].0 == x,
{
    broadcast use vstd::seq_lib::to_multiset_len;

    let ids = row_ids(rows);
    assert forall|i: int, j: int| 0 <= i < j < ids.len() implies lex_le(#[trigger] ids[i], #[trigger] ids[j]) by {
        assert(lex_lt(rows[i].0, rows[j].0));
        lemma_lex_total(rows[i].0, rows[j].0);
    }
    assert forall|i: int, j: int| 0 <= i < ids.len() && 0 <= j < ids.len() && i != j implies ids[i] != ids[j] by {
        if i < j {
            assert(lex_lt(rows[i].0, rows[j].0));
            lemma_lt_irreflexive(rows[i].0, rows[j].0);
        } else {
            assert(lex_lt(rows[j].0, rows[i].0));
            lemma_lt_irreflexive(rows[j].0, rows[i].0);
        }
    }
    assert forall|x: Seq<char>| ids.contains(x) implies exists|k: int| 0 <= k < p.len() && #[trigger] p[k].0 == x by {
        let i = choose|i: int| 0 <= i < ids.len() && ids[i] == x;
        assert(rows[i].1.len() > 0);
        assert(rows[i].1.to_multiset().len() > 0);
        lemma_labels_occur(p, x);
    }
    assert forall|x: Seq<char>| (exists|k: int| 0 <= k < p.len() && #[trigger] p[k].0 == x) implies ids.contains(x) by {
        let k = choose|k: int| 0 <= k < p.len() && #[trigger] p[k].0 == x;
        assert(has_row(rows, p[k].0));
        let i = choose|i: int| 0 <= i < rows.len() && #[trigger] rows[i].0 == p[k].0;
        assert(ids[i] == x);
    }
}

/// A keymap has exactly one listing: any two row sequences that list the
/// same bindings are equal.
pub proof fn law_listing_is_unique(
    p: Seq<(Seq<char>, Seq<char>)>,
    r1: Seq<(Seq<char>, Seq<Seq<char>>)>,
    r2: Seq<(Seq<char>, Seq<Seq<char>>)>,
)
    requires
        is_listing(p, r1),
        is_listing(p, r2),
    ensures
        r1 == r2,
{
    broadcast use vstd::seq_lib::to_multiset_contains;

    lemma_listing_ids(p, r1);
    lemma_listing_ids(p, r2);
    let i1 = row_ids(r1);
    let i2 = row_ids(r2);
    i1.lemma_multiset_has_no_duplicates();
    i2.lemma_multiset_has_no_duplicates();
    assert forall|x: Seq<char>| #[trigger] i1.to_multiset().count(x) == i2.to_multiset().count(x) by {
        if i1.contains(x) {
            assert(i2.contains(x));
            assert(i1.to_multiset().contains(x));
            assert(i2.to_multiset().contains(x));
        } else {
            assert(!i2.contains(x));
        }
    }
    assert(i1.to_multiset() =~= i2.to_multiset());
    law_sorted_is_unique(i1, i2);
    assert forall|i: int| 0 <= i < r1.len() implies r1[i] == r2[i] by {
        assert(i1[i] == i2[i]);
        assert(r1[i].0 == r2[i].0);
        law_sorted_is_unique(r1[i].1, r2[i].1);
    }
    assert(r1 =~= r2);
}

} // verus!
