//! In-document search: the query being typed, the lines it matches (a line
//! matches exactly when highlighting the query paints part of it, so the
//! count and the highlight always agree), and the current match.
use crate::layout::{StyledLine, StyledSpan};
use crate::navigate::tab_after;
use crate::paint::{highlight_query_in_line, search_pieces};
use crate::text::{chars_of, string_from};
use vstd::prelude::*;

verus! {

/// The texts of a line's spans.
pub open spec fn span_texts(line: StyledLine) -> Seq<Seq<char>> {
    line.spans@.map_values(|s: StyledSpan| s.text@)
}

/// Highlighting `q` in `line` paints some piece.
pub open spec fn line_matches(line: StyledLine, q: Seq<char>) -> bool {
    let ps = search_pieces(span_texts(line), q, span_texts(line).len() as int);
    exists|k: int| 0 <= k < ps.len() && (#[trigger] ps[k]).2
}

/// The indices of the lines `q` matches, in order.
pub open spec fn matching_lines(lines: Seq<StyledLine>, q: Seq<char>) -> Seq<usize>
    decreases lines.len(),
{
    if lines.len() == 0 {
        seq![]
    } else {
        matching_lines(lines.drop_last(), q) + if line_matches(lines.last(), q) {
            seq![(lines.len() - 1) as usize]
        } else {
            seq![]
        }
    }
}

/// Whether highlighting `query` in `line` paints anything.
fn matches_line(line: &StyledLine, query: &str) -> (b: bool)
    ensures
        b == line_matches(*line, query@),
{
    let mut texts: Vec<String> = Vec::new();
    let mut j: usize = 0;
    while j < line.spans.len()
        invariant
            j <= line.spans@.len(),
            texts@.len() == j,
            forall|k: int| 0 <= k < j ==> #[trigger] texts@[k]@ == line.spans@[k].text@,
        decreases line.spans@.len() - j,
    {
        texts.push(line.spans[j].text.clone());
        j = j + 1;
    }
    assert(texts@.map_values(|s: String| s@) =~= span_texts(*line));
    let pieces = highlight_query_in_line(&texts, query);
    let ghost ps = search_pieces(span_texts(*line), query@, span_texts(*line).len() as int);
    let mut k: usize = 0;
    while k < pieces.len()
        invariant
            k <= pieces@.len(),
            ps == crate::paint::pieces_view(pieces@),
            ps == search_pieces(span_texts(*line), query@, span_texts(*line).len() as int),
            forall|m: int| 0 <= m < k ==> !(#[trigger] ps[m]).2,
        decreases pieces@.len() - k,
    {
        if pieces[k].painted {
            assert(ps[k as int].2);
            return true;
        }
        k = k + 1;
    }
    false
}

/// The lines `query` matches, in order.
pub fn find_matches(lines: &Vec<StyledLine>, query: &str) -> (r: Vec<usize>)
    ensures
        r@ == matching_lines(lines@, query@),
{
    let mut r: Vec<usize> = Vec::new();
    let mut i: usize = 0;
    while i < lines.len()
        invariant
            i <= lines@.len(),
            r@ == matching_lines(lines@.take(i as int), query@),
        decreases lines@.len() - i,
    {
        proof {
            assert(lines@.take(i + 1).drop_last() =~= lines@.take(i as int));
        }
        if matches_line(&lines[i], query) {
            r.push(i);
        }
        proof {
            assert(lines@.take(i + 1).last() == lines@[i as int]);
            assert(r@ =~= matching_lines(lines@.take(i + 1), query@));
        }
        i = i + 1;
    }
    assert(lines@.take(lines@.len() as int) =~= lines@);
    r
}

/// The search of one reader: whether the prompt is open, the query, the
/// matching lines, and which of them is current.
#[derive(Debug, Clone)]
pub struct SearchState {
    pub active: bool,
    pub query: String,
    pub matches: Vec<usize>,
    pub current: usize,
}

impl SearchState {
    /// The current match is one of the matches, when there are any.
    pub open spec fn well_formed(&self) -> bool {
        self.matches@.len() == 0 || self.current < self.matches@.len()
    }

    /// No search: the prompt closed, no query, no matches.
    pub fn new() -> (s: Self)
        ensures
            s.well_formed(),
            !s.active,
            s.query@.len() == 0,
            s.matches@.len() == 0,
    {
        SearchState { active: false, query: String::new(), matches: Vec::new(), current: 0 }
    }

    /// Open the prompt with an empty query.
    pub fn activate(&mut self)
        ensures
            final(self).well_formed(),
            final(self).active,
            final(self).query@.len() == 0,
            final(self).matches@.len() == 0,
            final(self).current == 0,
    {
        self.active = true;
        self.query = String::new();
        self.matches = Vec::new();
        self.current = 0;
    }

    /// Close the prompt and drop the query and its matches.
    pub fn deactivate(&mut self)
        ensures
            final(self).well_formed(),
            !final(self).active,
            final(self).query@.len() == 0,
            final(self).matches@.len() == 0,
            final(self).current == 0,
    {
        self.active = false;
        self.query = String::new();
        self.matches = Vec::new();
        self.current = 0;
    }

    /// Close the prompt, keeping the matches highlighted.
    pub fn confirm(&mut self)
        ensures
            !final(self).active,
            final(self).query@ == old(self).query@,
            final(self).matches@ == old(self).matches@,
            final(self).current == old(self).current,
    {
        self.active = false;
    }

    /// Match the query against `lines` again, from the first match.
    pub fn refresh(&mut self, lines: &Vec<StyledLine>)
        ensures
            final(self).well_formed(),
            final(self).active == old(self).active,
            final(self).query@ == old(self).query@,
            final(self).matches@ == matching_lines(lines@, old(self).query@),
            final(self).current == 0,
    {
        self.matches = find_matches(lines, self.query.as_str());
        self.current = 0;
    }

    /// Type a character into the query and search again.
    pub fn type_char(&mut self, c: char, lines: &Vec<StyledLine>)
        ensures
            final(self).well_formed(),
            final(self).active == old(self).active,
            final(self).query@ == old(self).query@.push(c),
            final(self).matches@ == matching_lines(lines@, old(self).query@.push(c)),
            final(self).current == 0,
    {
        crate::text::push_char(&mut self.query, c);
        self.refresh(lines);
    }

    /// Erase the last character of the query (if any) and search again.
    pub fn backspace(&mut self, lines: &Vec<StyledLine>)
        ensures
            final(self).well_formed(),
            final(self).active == old(self).active,
            final(self).query@ == (if old(self).query@.len() > 0 {
                old(self).query@.drop_last()
            } else {
                old(self).query@
            }),
            final(self).matches@ == matching_lines(lines@, final(self).query@),
            final(self).current == 0,
    {
        let v = chars_of(self.query.as_str());
        if v.len() > 0 {
            self.query = string_from(&v, 0, v.len() - 1);
            assert(self.query@ =~= old(self).query@.drop_last());
        }
        self.refresh(lines);
    }

    /// Step to the next (or previous) match, wrapping around.
    pub fn step(&mut self, forward: bool)
        requires
            old(self).well_formed(),
        ensures
            final(self).well_formed(),
            final(self).active == old(self).active,
            final(self).query@ == old(self).query@,
            final(self).matches@ == old(self).matches@,
            final(self).current == (if old(self).matches@.len() > 0 {
                tab_after(old(self).current as int, old(self).matches@.len() as int, forward)
            } else {
                old(self).current as int
            }),
    {
        if self.matches.len() > 0 {
            self.current = crate::navigate::switch_tab(self.current, self.matches.len(), forward);
        }
    }

    /// The line of the current match.
    pub fn current_line(&self) -> (r: Option<usize>)
        ensures
            r == (if self.current < self.matches@.len() {
                Some(self.matches@[self.current as int])
            } else {
                None::<usize>
            }),
    {
        if self.current < self.matches.len() {
            Some(self.matches[self.current])
        } else {
            None
        }
    }
}

/// Erasing right after typing a character gives back the query.
pub proof fn law_backspace_undoes_typing(q: Seq<char>, c: char)
    ensures
        q.push(c).len() > 0,
        q.push(c).drop_last() == q,
{
    assert(q.push(c).drop_last() =~= q);
}

} // verus!
