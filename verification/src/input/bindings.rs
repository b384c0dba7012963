//! The keymap a session runs with: a preset's bindings with the user's
//! overrides, each key string parsed, and what went wrong along the way.
use super::keymap::{action_from_id, action_named, keys_parse, parse_keys, same_keys, KeyBinding, KeySeq};
use super::preset::{preset_view, Preset};
use super::Action;
use vstd::prelude::*;

verus! {

/// Action ids with their key strings, as text.
pub type BindingsView = Seq<(Seq<char>, Seq<Seq<char>>)>;

/// The first entry of `e` for the action id `id`.
pub open spec fn entry_of(e: BindingsView, id: Seq<char>) -> Option<int>
    decreases e.len(),
{
    if e.len() == 0 {
        None
    } else {
        match entry_of(e.drop_last(), id) {
            Some(i) => Some(i),
            None => if e.last().0 == id {
                Some(e.len() - 1)
            } else {
                None
            },
        }
    }
}

/// `e` with the keys of `id` set to `keys`: in its entry, or in a new one
/// at the end.
pub open spec fn set_entry(e: BindingsView, id: Seq<char>, keys: Seq<Seq<char>>) -> BindingsView {
    match entry_of(e, id) {
        Some(i) => e.update(i, (id, keys)),
        None => e.push((id, keys)),
    }
}

/// The bindings in effect: each override of a known action replaces the
/// preset's keys for it; an override of an unknown id changes nothing.
pub open spec fn effective(base: BindingsView, over: BindingsView) -> BindingsView
    decreases over.len(),
{
    if over.len() == 0 {
        base
    } else {
        let e = effective(base, over.drop_last());
        if action_named(over.last().0) is None {
            e
        } else {
            set_entry(e, over.last().0, over.last().1)
        }
    }
}

/// Where `entry_of` finds an entry, it holds `id` and no earlier entry
/// does; where it finds none, no entry holds `id`.
proof fn lemma_entry_of(e: BindingsView, id: Seq<char>)
    ensures
        match entry_of(e, id) {
            Some(i) => 0 <= i < e.len() && e[i].0 == id && forall|k: int| 0 <= k < i ==> e[k].0 != id,
            None => forall|k: int| 0 <= k < e.len() ==> e[k].0 != id,
        },
    decreases e.len(),
{
    if e.len() > 0 {
        lemma_entry_of(e.drop_last(), id);
        assert(forall|k: int| 0 <= k < e.len() - 1 ==> e.drop_last()[k] == e[k]);
    }
}

/// Entries with the same ids, position by position, are found alike.
proof fn lemma_entry_of_same_ids(e: BindingsView, f: BindingsView, id: Seq<char>)
    requires
        e.len() == f.len(),
        forall|k: int| 0 <= k < e.len() ==> e[k].0 == f[k].0,
    ensures
        entry_of(e, id) == entry_of(f, id),
    decreases e.len(),
{
    if e.len() > 0 {
        lemma_entry_of_same_ids(e.drop_last(), f.drop_last(), id);
    }
}

/// An override of a known action replaces that action's keys: after the
/// overrides, the entry for the id of the last override naming it holds
/// exactly that override's keys, whatever other ids were overridden after.
pub proof fn law_override_replaces_keys(base: BindingsView, over: BindingsView, j: int)
    requires
        0 <= j < over.len(),
        action_named(over[j].0) is Some,
        forall|k: int| j < k < over.len() ==> over[k].0 != over[j].0,
    ensures
        entry_of(effective(base, over), over[j].0) matches Some(i) && effective(base, over)[i] == over[j],
    decreases over.len(),
{
    let id = over[j].0;
    let e = effective(base, over.drop_last());
    let last = over.last();
    if j == over.len() - 1 {
        lemma_entry_of(e, id);
        match entry_of(e, id) {
            Some(i) => {
                let u = e.update(i, (id, last.1));
                lemma_entry_of_same_ids(e, u, id);
                assert(u[i] == over[j]);
            },
            None => {
                let u = e.push((id, last.1));
                assert(u.drop_last() =~= e);
                assert(u.last() == over[j]);
            },
        }
    } else {
        assert(over.drop_last()[j] == over[j]);
        law_override_replaces_keys(base, over.drop_last(), j);
        let i = entry_of(e, id)->Some_0;
        if action_named(last.0) is Some {
            lemma_entry_of(e, last.0);
            match entry_of(e, last.0) {
                Some(m) => {
                    let u = e.update(m, (last.0, last.1));
                    lemma_entry_of_same_ids(e, u, id);
                    lemma_entry_of(e, id);
                    assert(m != i);
                    assert(u[i] == e[i]);
                },
                None => {
                    let u = e.push((last.0, last.1));
                    lemma_entry_of(e, id);
                    lemma_entry_of(u, id);
                    assert(u.drop_last() =~= e);
                    assert(u[i] == e[i]);
                },
            }
        }
    }
}

/// The warnings for the overrides of unknown ids, in order.
pub open spec fn unknown_warnings(over: BindingsView) -> Seq<Seq<char>>
    decreases over.len(),
{
    if over.len() == 0 {
        seq![]
    } else {
        unknown_warnings(over.drop_last()) + if action_named(over.last().0) is None {
            seq!["unknown action id in config: '"@ + over.last().0 + "'"@]
        } else {
            seq![]
        }
    }
}

/// A keymap being built: each bound key with its action and the id that
/// bound it, and the warnings so far.
pub type MapState = (Seq<(KeySeq, Action, Seq<char>)>, Seq<Seq<char>>);

/// The entry binding `kb`.
pub open spec fn bound_at(m: Seq<(KeySeq, Action, Seq<char>)>, kb: KeySeq) -> Option<int>
    decreases m.len(),
{
    if m.len() == 0 {
        None
    } else {
        match bound_at(m.drop_last(), kb) {
            Some(i) => Some(i),
            None => if m.last().0 == kb {
                Some(m.len() - 1)
            } else {
                None
            },
        }
    }
}

/// The warning for a key bound to two actions; the later wins.
pub open spec fn conflict_warning(key: Seq<char>, prev: Seq<char>, id: Seq<char>) -> Seq<char> {
    "keybinding conflict: '"@ + key + "' bound to both '"@ + prev + "' and '"@ + id + "' \u{2014} using '"@ + id
        + "'"@
}

/// The warning for a key string that does not parse.
pub open spec fn invalid_warning(key: Seq<char>, id: Seq<char>, err: Seq<char>) -> Seq<char> {
    "invalid key '"@ + key + "' for '"@ + id + "': "@ + err
}

/// `st` after binding the key strings `keys` (single keys or chords) to
/// action `a` of id `id`: keys already bound by another id warn and are
/// taken over; a key string that does not parse warns and binds nothing.
pub open spec fn bind_keys(st: MapState, id: Seq<char>, a: Action, keys: Seq<Seq<char>>) -> MapState
    decreases keys.len(),
{
    if keys.len() == 0 {
        st
    } else {
        let p = bind_keys(st, id, a, keys.drop_last());
        let k = keys.last();
        match keys_parse(k) {
            Ok(kb) => match bound_at(p.0, kb) {
                Some(i) => (
                    p.0.update(i, (kb, a, id)),
                    if p.0[i].2 != id {
                        p.1.push(conflict_warning(k, p.0[i].2, id))
                    } else {
                        p.1
                    },
                ),
                None => (p.0.push((kb, a, id)), p.1),
            },
            Err(e) => (p.0, p.1.push(invalid_warning(k, id, e))),
        }
    }
}

/// Where `bound_at` finds an entry, it binds `kb`; where it finds none, no
/// entry does.
proof fn lemma_bound_at(m: Seq<(KeySeq, Action, Seq<char>)>, kb: KeySeq)
    ensures
        match bound_at(m, kb) {
            Some(i) => 0 <= i < m.len() && m[i].0 == kb,
            None => forall|k: int| 0 <= k < m.len() ==> m[k].0 != kb,
        },
    decreases m.len(),
{
    if m.len() > 0 {
        lemma_bound_at(m.drop_last(), kb);
        assert(forall|k: int| 0 <= k < m.len() - 1 ==> m.drop_last()[k] == m[k]);
    }
}

/// Keymaps binding the same keys, position by position, find a key alike.
proof fn lemma_bound_at_same_keys(
    m: Seq<(KeySeq, Action, Seq<char>)>,
    n: Seq<(KeySeq, Action, Seq<char>)>,
    kb: KeySeq,
)
    requires
        m.len() == n.len(),
        forall|k: int| 0 <= k < m.len() ==> m[k].0 == n[k].0,
    ensures
        bound_at(m, kb) == bound_at(n, kb),
    decreases m.len(),
{
    if m.len() > 0 {
        lemma_bound_at_same_keys(m.drop_last(), n.drop_last(), kb);
    }
}

/// A key bound again goes to the later binding: after binding key strings
/// for an action, the key the last string names is bound to that action
/// (and its id), whatever bound it before.
pub proof fn law_later_binding_wins(st: MapState, id: Seq<char>, a: Action, keys: Seq<Seq<char>>, kb: KeySeq)
    requires
        keys.len() > 0,
        keys_parse(keys.last()) == Ok::<KeySeq, Seq<char>>(kb),
    ensures
        bound_at(bind_keys(st, id, a, keys).0, kb) matches Some(i) && bind_keys(st, id, a, keys).0[i] == (
            kb,
            a,
            id,
        ),
{
    let p = bind_keys(st, id, a, keys.drop_last());
    lemma_bound_at(p.0, kb);
    match bound_at(p.0, kb) {
        Some(i) => {
            let u = p.0.update(i, (kb, a, id));
            lemma_bound_at_same_keys(p.0, u, kb);
        },
        None => {
            let u = p.0.push((kb, a, id));
            assert(u.drop_last() =~= p.0);
        },
    }
}

/// `st` after binding every entry of `eff` whose id names an action.
pub open spec fn bind_all(st: MapState, eff: BindingsView) -> MapState
    decreases eff.len(),
{
    if eff.len() == 0 {
        st
    } else {
        let p = bind_all(st, eff.drop_last());
        match action_named(eff.last().0) {
            Some(a) => bind_keys(p, eff.last().0, a, eff.last().1),
            None => p,
        }
    }
}

/// The single keys of a keymap with their actions, in order.
pub open spec fn singles_of(m: Seq<(KeySeq, Action, Seq<char>)>) -> Seq<(KeyBinding, Action)>
    decreases m.len(),
{
    if m.len() == 0 {
        seq![]
    } else {
        let e = m.last();
        singles_of(m.drop_last()) + match e.0.1 {
            None => seq![(e.0.0, e.1)],
            Some(_) => seq![],
        }
    }
}

/// The chords of a keymap, as prefix, second key and action, in order.
pub open spec fn chords_of(m: Seq<(KeySeq, Action, Seq<char>)>) -> Seq<(KeyBinding, KeyBinding, Action)>
    decreases m.len(),
{
    if m.len() == 0 {
        seq![]
    } else {
        let e = m.last();
        chords_of(m.drop_last()) + match e.0.1 {
            None => seq![],
            Some(k2) => seq![(e.0.0, k2, e.1)],
        }
    }
}

/// The keymap of a preset with overrides: each bound single key and its
/// action, each bound chord, and the warnings (unknown ids first, then
/// conflicts and bad key strings).
pub open spec fn keymap_of(preset: BindingsView, over: BindingsView) -> (
    Seq<(KeyBinding, Action)>,
    Seq<(KeyBinding, KeyBinding, Action)>,
    Seq<Seq<char>>,
) {
    let st = bind_all((seq![], unknown_warnings(over)), effective(preset, over));
    (singles_of(st.0), chords_of(st.0), st.1)
}

/// Entries of owned strings as text.
pub open spec fn entries_view(e: Seq<(String, Vec<String>)>) -> BindingsView {
    e.map_values(|x: (String, Vec<String>)| (x.0@, x.1@.map_values(|k: String| k@)))
}

/// A keymap under construction as plain values.
pub open spec fn map_view(m: Seq<(KeySeq, Action, String)>) -> Seq<(KeySeq, Action, Seq<char>)> {
    m.map_values(|x: (KeySeq, Action, String)| (x.0, x.1, x.2@))
}

/// Strings as text.
pub open spec fn strings_view(w: Seq<String>) -> Seq<Seq<char>> {
    w.map_values(|x: String| x@)
}

/// Owned copies of key strings.
fn own_keys(keys: &Vec<&'static str>) -> (r: Vec<String>)
    ensures
        r@.map_values(|k: String| k@) == keys@.map_values(|k: &'static str| k@),
{
    let mut r: Vec<String> = Vec::new();
    let mut i: usize = 0;
    while i < keys.len()
        invariant
            i <= keys@.len(),
            r@.len() == i,
            forall|k: int| 0 <= k < i ==> #[trigger] r@[k]@ == keys@[k]@,
        decreases keys@.len() - i,
    {
        r.push(String::from_str(keys[i]));
        i = i + 1;
    }
    assert(r@.map_values(|k: String| k@) =~= keys@.map_values(|k: &'static str| k@));
    r
}

/// A copy of a list of strings.
fn copy_strings(keys: &Vec<String>) -> (r: Vec<String>)
    ensures
        r@.map_values(|k: String| k@) == keys@.map_values(|k: String| k@),
{
    let mut r: Vec<String> = Vec::new();
    let mut i: usize = 0;
    while i < keys.len()
        invariant
            i <= keys@.len(),
            r@.len() == i,
            forall|k: int| 0 <= k < i ==> #[trigger] r@[k]@ == keys@[k]@,
        decreases keys@.len() - i,
    {
        r.push(keys[i].clone());
        i = i + 1;
    }
    assert(r@.map_values(|k: String| k@) =~= keys@.map_values(|k: String| k@));
    r
}

/// The entry of `e` for `id`.
fn find_entry(e: &Vec<(String, Vec<String>)>, id: &String) -> (r: Option<usize>)
    ensures
        match r {
            Some(i) => entry_of(entries_view(e@), id@) == Some(i as int),
            None => entry_of(entries_view(e@), id@) is None,
        },
{
    let ghost ev = entries_view(e@);
    let mut i: usize = 0;
    while i < e.len()
        invariant
            i <= e@.len(),
            ev == entries_view(e@),
            entry_of(ev.take(i as int), id@) is None,
        decreases e@.len() - i,
    {
        proof {
            assert(ev.take(i + 1).drop_last() =~= ev.take(i as int));
            assert(ev.take(i + 1).last() == ev[i as int]);
        }
        if e[i].0 == *id {
            proof {
                lemma_entry_prefix(ev, id@, i as int + 1);
            }
            return Some(i);
        }
        i = i + 1;
    }
    assert(ev.take(e@.len() as int) =~= ev);
    None
}

proof fn lemma_entry_prefix(e: BindingsView, id: Seq<char>, k: int)
    requires
        0 <= k <= e.len(),
        entry_of(e.take(k), id) is Some,
    ensures
        entry_of(e, id) == entry_of(e.take(k), id),
    decreases e.len() - k,
{
    if k < e.len() {
        assert(e.take(k + 1).drop_last() =~= e.take(k));
        lemma_entry_prefix(e, id, k + 1);
    } else {
        assert(e.take(k) =~= e);
    }
}

/// The entry of the keymap binding `kb`.
fn find_bound(m: &Vec<(KeySeq, Action, String)>, kb: KeySeq) -> (r: Option<usize>)
    ensures
        match r {
            Some(i) => bound_at(map_view(m@), kb) == Some(i as int),
            None => bound_at(map_view(m@), kb) is None,
        },
{
    let ghost mv = map_view(m@);
    let mut i: usize = 0;
    while i < m.len()
        invariant
            i <= m@.len(),
            mv == map_view(m@),
            bound_at(mv.take(i as int), kb) is None,
        decreases m@.len() - i,
    {
        proof {
            assert(mv.take(i + 1).drop_last() =~= mv.take(i as int));
            assert(mv.take(i + 1).last() == mv[i as int]);
        }
        if same_keys(m[i].0, kb) {
            proof {
                lemma_bound_prefix(mv, kb, i as int + 1);
            }
            return Some(i);
        }
        i = i + 1;
    }
    assert(mv.take(m@.len() as int) =~= mv);
    None
}

proof fn lemma_bound_prefix(m: Seq<(KeySeq, Action, Seq<char>)>, kb: KeySeq, k: int)
    requires
        0 <= k <= m.len(),
        bound_at(m.take(k), kb) is Some,
    ensures
        bound_at(m, kb) == bound_at(m.take(k), kb),
    decreases m.len() - k,
{
    if k < m.len() {
        assert(m.take(k + 1).drop_last() =~= m.take(k));
        lemma_bound_prefix(m, kb, k + 1);
    } else {
        assert(m.take(k) =~= m);
    }
}

proof fn lemma_entry_bound(e: BindingsView, id: Seq<char>)
    ensures
        entry_of(e, id) matches Some(i) ==> 0 <= i < e.len() && e[i].0 == id,
    decreases e.len(),
{
    if e.len() > 0 {
        lemma_entry_bound(e.drop_last(), id);
    }
}

proof fn lemma_bound_bound(m: Seq<(KeySeq, Action, Seq<char>)>, kb: KeySeq)
    ensures
        bound_at(m, kb) matches Some(i) ==> 0 <= i < m.len() && m[i].0 == kb,
    decreases m.len(),
{
    if m.len() > 0 {
        lemma_bound_bound(m.drop_last(), kb);
    }
}

/// Bind the key strings of one action.
fn bind_keys_exec(
    m: &mut Vec<(KeySeq, Action, String)>,
    w: &mut Vec<String>,
    id: &String,
    a: Action,
    keys: &Vec<String>,
)
    ensures
        (map_view(final(m)@), strings_view(final(w)@)) == bind_keys(
            (map_view(old(m)@), strings_view(old(w)@)),
            id@,
            a,
            keys@.map_values(|k: String| k@),
        ),
{
    let ghost kv = keys@.map_values(|k: String| k@);
    let ghost st0 = (map_view(m@), strings_view(w@));
    let mut k: usize = 0;
    while k < keys.len()
        invariant
            k <= keys@.len(),
            kv == keys@.map_values(|k: String| k@),
            st0 == (map_view(old(m)@), strings_view(old(w)@)),
            (map_view(m@), strings_view(w@)) == bind_keys(st0, id@, a, kv.take(k as int)),
        decreases keys@.len() - k,
    {
        proof {
            assert(kv.take(k + 1).drop_last() =~= kv.take(k as int));
            assert(kv.take(k + 1).last() == keys@[k as int]@);
        }
        let ghost mv = map_view(m@);
        let ghost wv = strings_view(w@);
        match parse_keys(keys[k].as_str()) {
            Ok(kb) => {
                match find_bound(m, kb) {
                    Some(i) => {
                        proof {
                            lemma_bound_bound(mv, kb);
                        }
                        if m[i].2 != *id {
                            let mut msg = String::new();
                            msg.append("keybinding conflict: '");
                            msg.append(keys[k].as_str());
                            msg.append("' bound to both '");
                            msg.append(m[i].2.as_str());
                            msg.append("' and '");
                            msg.append(id.as_str());
                            msg.append("' \u{2014} using '");
                            msg.append(id.as_str());
                            msg.append("'");
                            assert(msg@ =~= conflict_warning(keys@[k as int]@, mv[i as int].2, id@));
                            w.push(msg);
                        }
                        m.set(i, (kb, a, id.clone()));
                        proof {
                            assert(map_view(m@) =~= mv.update(i as int, (kb, a, id@)));
                            assert(strings_view(w@) =~= (if mv[i as int].2 != id@ {
                                wv.push(conflict_warning(keys@[k as int]@, mv[i as int].2, id@))
                            } else {
                                wv
                            }));
                        }
                    },
                    None => {
                        m.push((kb, a, id.clone()));
                        assert(map_view(m@) =~= mv.push((kb, a, id@)));
                    },
                }
            },
            Err(e) => {
                let mut msg = String::new();
                msg.append("invalid key '");
                msg.append(keys[k].as_str());
                msg.append("' for '");
                msg.append(id.as_str());
                msg.append("': ");
                msg.append(e.as_str());
                assert(msg@ =~= invalid_warning(keys@[k as int]@, id@, e@));
                w.push(msg);
                assert(strings_view(w@) =~= wv.push(invalid_warning(keys@[k as int]@, id@, e@)));
            },
        }
        k = k + 1;
    }
    assert(kv.take(keys@.len() as int) =~= kv);
}

/// The keymap a preset and the user's overrides give: for each action the
/// preset's key strings, or the override's where the config gives one
/// (overrides of unknown action ids are warned about and skipped); every
/// key string parsed (one key, or a two-key chord written with a space) and
/// bound to its action, keys bound twice going to the later binding with a
/// warning, a key string that does not parse warned about. Returns the
/// single keys with their actions, the chords (prefix, second key, action),
/// and the warnings in order.
pub fn build_keymap(preset: &Preset, overrides: &Vec<(String, Vec<String>)>) -> (r: (
    Vec<(KeyBinding, Action)>,
    Vec<(KeyBinding, KeyBinding, Action)>,
    Vec<String>,
))
    ensures
        ({
            let want = keymap_of(preset_view(preset@), entries_view(overrides@));
            &&& r.0@ == want.0
            &&& r.1@ == want.1
            &&& strings_view(r.2@) == want.2
        }),
{
    let ghost ov = entries_view(overrides@);
    let mut eff: Vec<(String, Vec<String>)> = Vec::new();
    let mut i: usize = 0;
    while i < preset.len()
        invariant
            i <= preset@.len(),
            eff@.len() == i,
            forall|k: int| 0 <= k < i ==> #[trigger] entries_view(eff@)[k] == preset_view(preset@)[k],
        decreases preset@.len() - i,
    {
        let ghost before = eff@;
        let name = String::from_str(preset[i].0);
        let keys = own_keys(&preset[i].1);
        eff.push((name, keys));
        proof {
            assert forall|k: int| 0 <= k <= i implies #[trigger] entries_view(eff@)[k] == preset_view(preset@)[k] by {
                if k < i {
                    assert(eff@[k] == before[k]);
                    assert(entries_view(before)[k] == preset_view(preset@)[k]);
                }
            }
        }
        i = i + 1;
    }
    assert(entries_view(eff@) =~= preset_view(preset@));
    let mut warnings: Vec<String> = Vec::new();
    let mut j: usize = 0;
    while j < overrides.len()
        invariant
            j <= overrides@.len(),
            ov == entries_view(overrides@),
            entries_view(eff@) == effective(preset_view(preset@), ov.take(j as int)),
            strings_view(warnings@) == unknown_warnings(ov.take(j as int)),
        decreases overrides@.len() - j,
    {
        proof {
            assert(ov.take(j + 1).drop_last() =~= ov.take(j as int));
            assert(ov.take(j + 1).last() == ov[j as int]);
        }
        let id = &overrides[j].0;
        let ghost ev = entries_view(eff@);
        let ghost wv = strings_view(warnings@);
        if action_from_id(id.as_str()).is_none() {
            let mut msg = String::new();
            msg.append("unknown action id in config: '");
            msg.append(id.as_str());
            msg.append("'");
            warnings.push(msg);
            assert(strings_view(warnings@) =~= unknown_warnings(ov.take(j + 1)));
        } else {
            let keys = copy_strings(&overrides[j].1);
            match find_entry(&eff, id) {
                Some(t) => {
                    proof {
                        lemma_entry_bound(ev, id@);
                    }
                    eff.set(t, (id.clone(), keys));
                },
                None => {
                    eff.push((id.clone(), keys));
                },
            }
            assert(entries_view(eff@) =~= effective(preset_view(preset@), ov.take(j + 1)));
            assert(strings_view(warnings@) =~= unknown_warnings(ov.take(j + 1)));
        }
        j = j + 1;
    }
    assert(ov.take(overrides@.len() as int) =~= ov);
    let ghost effv = entries_view(eff@);
    let mut m: Vec<(KeySeq, Action, String)> = Vec::new();
    assert(map_view(m@) =~= Seq::<(KeySeq, Action, Seq<char>)>::empty());
    let ghost st0 = (map_view(m@), strings_view(warnings@));
    let mut k: usize = 0;
    while k < eff.len()
        invariant
            k <= eff@.len(),
            effv == entries_view(eff@),
            (map_view(m@), strings_view(warnings@)) == bind_all(st0, effv.take(k as int)),
        decreases eff@.len() - k,
    {
        proof {
            assert(effv.take(k + 1).drop_last() =~= effv.take(k as int));
            assert(effv.take(k + 1).last() == effv[k as int]);
        }
        if let Some(a) = action_from_id(eff[k].0.as_str()) {
            bind_keys_exec(&mut m, &mut warnings, &eff[k].0, a, &eff[k].1);
        }
        k = k + 1;
    }
    assert(effv.take(eff@.len() as int) =~= effv);
    let ghost mv = map_view(m@);
    let mut singles: Vec<(KeyBinding, Action)> = Vec::new();
    let mut chords: Vec<(KeyBinding, KeyBinding, Action)> = Vec::new();
    let mut t: usize = 0;
    while t < m.len()
        invariant
            t <= m@.len(),
            mv == map_view(m@),
            singles@ == singles_of(mv.take(t as int)),
            chords@ == chords_of(mv.take(t as int)),
        decreases m@.len() - t,
    {
        proof {
            assert(mv.take(t + 1).drop_last() =~= mv.take(t as int));
            assert(mv.take(t + 1).last() == mv[t as int]);
        }
        match m[t].0.1 {
            None => {
                singles.push((m[t].0.0, m[t].1));
                assert(singles@ =~= singles_of(mv.take(t + 1)));
                assert(chords@ =~= chords_of(mv.take(t + 1)));
            },
            Some(k2) => {
                chords.push((m[t].0.0, k2, m[t].1));
                assert(singles@ =~= singles_of(mv.take(t + 1)));
                assert(chords@ =~= chords_of(mv.take(t + 1)));
            },
        }
        t = t + 1;
    }
    assert(mv.take(m@.len() as int) =~= mv);
    (singles, chords, warnings)
}

} // verus!
