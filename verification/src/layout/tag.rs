//! Attributes of a raw HTML tag, read by a quote-aware scanner: a `>` or a
//! blank inside a quoted value belongs to the value, and a name that only
//! appears inside another attribute's value is not an attribute.
use crate::text::{is_ws, lower_seq, starts_with_lower, sub_vec, to_ascii_lower, trim, trim_end_at, trim_start_at};
use vstd::prelude::*;

verus! {

/// Where the scanner stands inside a tag. Positions index the tag's chars.
#[derive(Clone, Copy, Debug)]
pub enum TagScan {
    /// Between attributes.
    Gap,
    /// Inside a name that began at the position held.
    Name(usize),
    /// After the name `start..end`, before any `=`.
    Named(usize, usize),
    /// After `name=`, before the value.
    Equals(usize, usize),
    /// Inside a value quoted by the char, which began at the last position.
    Quoted(usize, usize, char, usize),
    /// Inside an unquoted value, which began at the last position.
    Bare(usize, usize, usize),
}

/// What one char does to the scanner: the wanted value found at
/// `start..end`, or the next state.
#[derive(Clone, Copy, Debug)]
pub enum TagStep {
    Found(usize, usize),
    Go(TagScan),
}

/// A value `v..i` that ends an attribute `a..e` is the one wanted when the
/// name, ASCII-lowercased, is `name`.
pub open spec fn finish(s: Seq<char>, name: Seq<char>, a: int, e: int, v: int, i: int) -> TagStep {
    if 0 <= a <= e <= s.len() && 0 <= v <= i && lower_seq(s.subrange(a, e)) == name {
        TagStep::Found(v as usize, i as usize)
    } else {
        TagStep::Go(TagScan::Gap)
    }
}

/// The scanner's move on the char at `i`.
pub open spec fn tag_step(s: Seq<char>, name: Seq<char>, i: int, st: TagScan) -> TagStep {
    let c = s[i];
    match st {
        TagScan::Gap => if is_ws(c) || c == '=' || c == '>' || c == '/' {
            TagStep::Go(TagScan::Gap)
        } else {
            TagStep::Go(TagScan::Name(i as usize))
        },
        TagScan::Name(a) => if is_ws(c) {
            TagStep::Go(TagScan::Named(a, i as usize))
        } else if c == '=' {
            TagStep::Go(TagScan::Equals(a, i as usize))
        } else if c == '>' || c == '/' {
            TagStep::Go(TagScan::Gap)
        } else {
            TagStep::Go(TagScan::Name(a))
        },
        TagScan::Named(a, e) => if is_ws(c) {
            TagStep::Go(TagScan::Named(a, e))
        } else if c == '=' {
            TagStep::Go(TagScan::Equals(a, e))
        } else if c == '>' || c == '/' {
            TagStep::Go(TagScan::Gap)
        } else {
            TagStep::Go(TagScan::Name(i as usize))
        },
        TagScan::Equals(a, e) => if is_ws(c) {
            TagStep::Go(TagScan::Equals(a, e))
        } else if c == '"' || c == '\'' {
            TagStep::Go(TagScan::Quoted(a, e, c, (i + 1) as usize))
        } else if c == '>' {
            TagStep::Go(TagScan::Gap)
        } else {
            TagStep::Go(TagScan::Bare(a, e, i as usize))
        },
        TagScan::Quoted(a, e, q, v) => if c == q {
            finish(s, name, a as int, e as int, v as int, i)
        } else {
            TagStep::Go(st)
        },
        TagScan::Bare(a, e, v) => if is_ws(c) || c == '>' {
            finish(s, name, a as int, e as int, v as int, i)
        } else {
            TagStep::Go(st)
        },
    }
}

/// The range of the first value of an attribute called `name`, scanning
/// from position `i` in state `st`.
pub open spec fn scan_from(s: Seq<char>, name: Seq<char>, i: int, st: TagScan) -> Option<(usize, usize)>
    decreases s.len() - i,
{
    if i < 0 || i >= s.len() {
        None
    } else {
        match tag_step(s, name, i, st) {
            TagStep::Found(a, b) => Some((a, b)),
            TagStep::Go(next) => scan_from(s, name, i + 1, next),
        }
    }
}

/// The value of the attribute `name` (lowercase) among the attributes `s`
/// of a tag, if it has one with a value.
pub open spec fn tag_attr(s: Seq<char>, name: Seq<char>) -> Option<Seq<char>> {
    match scan_from(s, name, 0, TagScan::Gap) {
        Some((a, b)) => Some(s.subrange(a as int, b as int)),
        None => None,
    }
}

/// Whether the inline HTML `h` is an `<img>` tag.
pub open spec fn is_img(h: Seq<char>) -> bool {
    let t = lower_seq(trim(h));
    &&& t.len() >= 5
    &&& t.take(4) == seq!['<', 'i', 'm', 'g']
    &&& (is_ws(t[4]) || t[4] == '>' || t[4] == '/')
}

/// The value of `name` in the `<img>` tag `h`, empty when it has none.
pub open spec fn img_attr(h: Seq<char>, name: Seq<char>) -> Seq<char> {
    match tag_attr(trim(h).skip(4), name) {
        Some(v) => v,
        None => seq![],
    }
}

/// Whether `s[a..e]`, ASCII-lowercased, is `name`.
fn range_is_lower(s: &Vec<char>, a: usize, e: usize, name: &Vec<char>) -> (b: bool)
    requires
        a <= e <= s@.len(),
    ensures
        b == (lower_seq(s@.subrange(a as int, e as int)) == name@),
{
    if e - a != name.len() {
        assert(lower_seq(s@.subrange(a as int, e as int)).len() != name@.len());
        return false;
    }
    let mut k: usize = 0;
    while k < name.len()
        invariant
            e - a == name@.len(),
            a <= e <= s@.len(),
            k <= name@.len(),
            forall|j: int| 0 <= j < k ==> #[trigger] name@[j] == lower_seq(s@.subrange(a as int, e as int))[j],
        decreases name@.len() - k,
    {
        if to_ascii_lower(s[a + k]) != name[k] {
            assert(lower_seq(s@.subrange(a as int, e as int))[k as int] != name@[k as int]);
            return false;
        }
        k = k + 1;
    }
    assert(lower_seq(s@.subrange(a as int, e as int)) =~= name@);
    true
}

/// The scanner's move on the char at `i` (`tag_step`).
fn step(s: &Vec<char>, name: &Vec<char>, i: usize, st: TagScan) -> (r: TagStep)
    requires
        i < s@.len(),
    ensures
        r == tag_step(s@, name@, i as int, st),
        r matches TagStep::Found(a, b) ==> a <= b <= i,
{
    let _len = s.len();  // bounds `i + 1` below
    let c = s[i];
    let ws = crate::text::is_whitespace(c);
    match st {
        TagScan::Gap => if ws || c == '=' || c == '>' || c == '/' {
            TagStep::Go(TagScan::Gap)
        } else {
            TagStep::Go(TagScan::Name(i))
        },
        TagScan::Name(a) => if ws {
            TagStep::Go(TagScan::Named(a, i))
        } else if c == '=' {
            TagStep::Go(TagScan::Equals(a, i))
        } else if c == '>' || c == '/' {
            TagStep::Go(TagScan::Gap)
        } else {
            TagStep::Go(TagScan::Name(a))
        },
        TagScan::Named(a, e) => if ws {
            TagStep::Go(TagScan::Named(a, e))
        } else if c == '=' {
            TagStep::Go(TagScan::Equals(a, e))
        } else if c == '>' || c == '/' {
            TagStep::Go(TagScan::Gap)
        } else {
            TagStep::Go(TagScan::Name(i))
        },
        TagScan::Equals(a, e) => if ws {
            TagStep::Go(TagScan::Equals(a, e))
        } else if c == '"' || c == '\'' {
            TagStep::Go(TagScan::Quoted(a, e, c, i + 1))
        } else if c == '>' {
            TagStep::Go(TagScan::Gap)
        } else {
            TagStep::Go(TagScan::Bare(a, e, i))
        },
        TagScan::Quoted(a, e, q, v) => if c == q {
            finish_at(s, name, a, e, v, i)
        } else {
            TagStep::Go(st)
        },
        TagScan::Bare(a, e, v) => if ws || c == '>' {
            finish_at(s, name, a, e, v, i)
        } else {
            TagStep::Go(st)
        },
    }
}

/// `finish`, computed.
fn finish_at(s: &Vec<char>, name: &Vec<char>, a: usize, e: usize, v: usize, i: usize) -> (r: TagStep)
    ensures
        r == finish(s@, name@, a as int, e as int, v as int, i as int),
        r matches TagStep::Found(x, y) ==> x == v && y == i && v <= i,
{
    if a <= e && e <= s.len() && v <= i && range_is_lower(s, a, e, name) {
        TagStep::Found(v, i)
    } else {
        TagStep::Go(TagScan::Gap)
    }
}

/// The value of the attribute `name` (lowercase) among the attributes `s`.
pub fn attr_value(s: &Vec<char>, name: &Vec<char>) -> (r: Option<Vec<char>>)
    ensures
        match r {
            Some(v) => tag_attr(s@, name@) == Some(v@),
            None => tag_attr(s@, name@) is None,
        },
{
    let mut st = TagScan::Gap;
    let mut i: usize = 0;
    while i < s.len()
        invariant
            i <= s@.len(),
            scan_from(s@, name@, 0, TagScan::Gap) == scan_from(s@, name@, i as int, st),
        decreases s@.len() - i,
    {
        match step(s, name, i, st) {
            TagStep::Found(a, b) => {
                return Some(sub_vec(s, a, b));
            },
            TagStep::Go(next) => {
                st = next;
                i = i + 1;
            },
        }
    }
    None
}

/// For an inline `<img>` tag `h`: its `src` and `alt` values, each empty
/// when missing; `None` for any other markup.
pub fn img_attrs(h: &Vec<char>) -> (r: Option<(Vec<char>, Vec<char>)>)
    ensures
        match r {
            Some((src, alt)) => is_img(h@) && src@ == img_attr(h@, seq!['s', 'r', 'c']) && alt@
                == img_attr(h@, seq!['a', 'l', 't']),
            None => !is_img(h@),
        },
{
    let lo = trim_start_at(h, 0, h.len());
    let hi = trim_end_at(h, lo, h.len());
    let body = sub_vec(h, lo, hi);
    proof {
        assert(h@.subrange(0, h@.len() as int) =~= h@);
        assert(body@ == trim(h@));
    }
    let pat = vec!['<', 'i', 'm', 'g'];
    if body.len() < 5 || !starts_with_lower(&body, 0, body.len(), &pat) {
        proof {
            assert(body@.subrange(0, body@.len() as int) =~= body@);
            assert(lower_seq(body@).len() == body@.len());
        }
        return None;
    }
    let c = to_ascii_lower(body[4]);
    proof {
        assert(body@.subrange(0, body@.len() as int) =~= body@);
        assert(lower_seq(body@)[4] == c);
    }
    if !(crate::text::is_whitespace(c) || c == '>' || c == '/') {
        return None;
    }
    let rest = sub_vec(&body, 4, body.len());
    assert(rest@ =~= trim(h@).skip(4));
    let src = match attr_value(&rest, &vec!['s', 'r', 'c']) {
        Some(v) => v,
        None => Vec::new(),
    };
    let alt = match attr_value(&rest, &vec!['a', 'l', 't']) {
        Some(v) => v,
        None => Vec::new(),
    };
    proof {
        assert(src@ == img_attr(h@, seq!['s', 'r', 'c']));
        assert(alt@ == img_attr(h@, seq!['a', 'l', 't']));
    }
    Some((src, alt))
}

/// The value of `name` among the attributes `s`, empty when it has none.
pub open spec fn attr_or_empty(s: Seq<char>, name: Seq<char>) -> Seq<char> {
    match tag_attr(s, name) {
        Some(v) => v,
        None => seq![],
    }
}

/// Whether an `<img` tag (any case) opens at `p` in `h`.
pub open spec fn img_opens_at(h: Seq<char>, p: int) -> bool {
    &&& 0 <= p
    &&& p + 4 < h.len()
    &&& lower_seq(h.subrange(p, p + 4)) == seq!['<', 'i', 'm', 'g']
    &&& (is_ws(h[p + 4]) || h[p + 4] == '>' || h[p + 4] == '/')
}

/// Where the first `<img` tag at or after `p` opens.
pub open spec fn first_img(h: Seq<char>, p: int) -> Option<int>
    decreases h.len() - p,
{
    if p < 0 || p + 4 >= h.len() {
        None
    } else if img_opens_at(h, p) {
        Some(p)
    } else {
        first_img(h, p + 1)
    }
}

/// Whether everything of `h` from `i` on, outside tags, is whitespace
/// (`in_tag`: whether `i` lies inside a tag; `quote`: the quote of the
/// attribute value it lies in, where a `>` does not end the tag).
pub open spec fn tags_only_from(h: Seq<char>, i: int, in_tag: bool, quote: Option<char>) -> bool
    decreases h.len() - i,
{
    if i < 0 || i >= h.len() {
        true
    } else if in_tag {
        match quote {
            Some(q) => tags_only_from(h, i + 1, true, if h[i] == q { None } else { quote }),
            None => if h[i] == '"' || h[i] == '\'' {
                tags_only_from(h, i + 1, true, Some(h[i]))
            } else {
                tags_only_from(h, i + 1, h[i] != '>', None)
            },
        }
    } else if h[i] == '<' {
        tags_only_from(h, i + 1, true, None)
    } else if is_ws(h[i]) {
        tags_only_from(h, i + 1, false, None)
    } else {
        false
    }
}

/// The picture an HTML block stands for: a block of tags only (such as
/// `<p align="center"><img src="logo.png" alt="Logo"></p>`) holding an
/// `<img>`; the first such tag's `src` and `alt`, each empty when missing.
pub open spec fn block_img(h: Seq<char>) -> Option<(Seq<char>, Seq<char>)> {
    if !tags_only_from(h, 0, false, None) {
        None
    } else {
        match first_img(h, 0) {
            Some(p) => Some(
                (
                    attr_or_empty(h.skip(p + 4), seq!['s', 'r', 'c']),
                    attr_or_empty(h.skip(p + 4), seq!['a', 'l', 't']),
                ),
            ),
            None => None,
        }
    }
}

/// The picture an HTML block stands for (`block_img`), as `(src, alt)`.
pub fn block_image(html: &str) -> (r: Option<(String, String)>)
    ensures
        match r {
            Some((src, alt)) => block_img(html@) == Some((src@, alt@)),
            None => block_img(html@) is None,
        },
{
    let h = crate::text::chars_of(html);
    let n = h.len();
    let mut i: usize = 0;
    let mut in_tag = false;
    let mut quote: Option<char> = None;
    while i < n
        invariant
            n == h@.len(),
            i <= n,
            h@ == html@,
            tags_only_from(h@, 0, false, None) == tags_only_from(h@, i as int, in_tag, quote),
        decreases n - i,
    {
        let c = h[i];
        if in_tag {
            match quote {
                Some(q) => {
                    if c == q {
                        quote = None;
                    }
                },
                None => {
                    if c == '"' || c == '\'' {
                        quote = Some(c);
                    } else {
                        in_tag = c != '>';
                    }
                },
            }
        } else if c == '<' {
            in_tag = true;
            quote = None;
        } else if crate::text::is_whitespace(c) {
            quote = None;
        } else {
            return None;
        }
        i = i + 1;
    }
    let pat = vec!['<', 'i', 'm', 'g'];
    assert(pat@ =~= seq!['<', 'i', 'm', 'g']);
    let mut p: usize = 0;
    while p < n && n - p > 4
        invariant
            n == h@.len(),
            h@ == html@,
            tags_only_from(h@, 0, false, None),
            pat@ == seq!['<', 'i', 'm', 'g'],
            first_img(h@, 0) == first_img(h@, p as int),
        decreases n - p,
    {
        if starts_with_lower(&h, p, p + 4, &pat) {
            let c = h[p + 4];
            proof {
                assert(h@.subrange(p as int, p + 4).len() == 4);
                assert(lower_seq(h@.subrange(p as int, p + 4)).take(4) =~= lower_seq(h@.subrange(p as int, p + 4)));
            }
            if crate::text::is_whitespace(c) || c == '>' || c == '/' {
                assert(img_opens_at(h@, p as int));
                let rest = sub_vec(&h, p + 4, n);
                assert(rest@ =~= h@.skip(p + 4));
                let sn = vec!['s', 'r', 'c'];
                let an = vec!['a', 'l', 't'];
                assert(sn@ =~= seq!['s', 'r', 'c']);
                assert(an@ =~= seq!['a', 'l', 't']);
                let src = match attr_value(&rest, &sn) {
                    Some(v) => v,
                    None => Vec::new(),
                };
                let alt = match attr_value(&rest, &an) {
                    Some(v) => v,
                    None => Vec::new(),
                };
                assert(src@ == attr_or_empty(h@.skip(p + 4), seq!['s', 'r', 'c']));
                assert(alt@ == attr_or_empty(h@.skip(p + 4), seq!['a', 'l', 't']));
                let s1 = crate::text::string_from(&src, 0, src.len());
                let s2 = crate::text::string_from(&alt, 0, alt.len());
                proof {
                    assert(src@.subrange(0, src@.len() as int) =~= src@);
                    assert(alt@.subrange(0, alt@.len() as int) =~= alt@);
                }
                return Some((s1, s2));
            }
            assert(!img_opens_at(h@, p as int));
        } else {
            proof {
                assert(lower_seq(h@.subrange(p as int, p + 4)).take(4) =~= lower_seq(h@.subrange(p as int, p + 4)));
            }
            assert(!img_opens_at(h@, p as int));
        }
        p = p + 1;
    }
    None
}

} // verus!
