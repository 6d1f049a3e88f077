//! The rich-text markup of the DIY description panel.
//!
//!   `[b]…[/b]`      → gold
//!   `[i]…[/i]`      → italic
//!   `【…】` `『…』` → inner text yellow (digits and `_` stay white), brackets white
//!   `[img]…[/img]`  → a split-line run
//!   `[hr]`          → a split-line run
//!
//! Parsing happens in two steps: `lex` gives every visible character its style
//! (and marks the split lines), `group` joins neighbouring characters of equal
//! style into runs.

use vstd::prelude::*;
use crate::text::{chars_of, first_at, lemma_first_at_unique, push_char};

verus! {

/// Body text colour.
pub const BODY: [u8; 4] = [255, 255, 255, 255];
/// Text shadow colour.
pub const SHADOW: [u8; 4] = [0, 0, 0, 210];
/// Keyword gold (`[b]…[/b]`).
pub const KEYWORD_GOLD: [u8; 4] = [255, 214, 118, 255];
/// Bracket keyword yellow (`【…】`, `『…』`).
pub const KEYWORD_YELLOW: [u8; 4] = [255, 255, 0, 255];

/// The three text colours the markup can select.
#[derive(Clone, Copy, Debug, PartialEq, Eq, Structural)]
pub enum Hue {
    Body,
    Gold,
    Yellow,
}

pub open spec fn hue_rgba(h: Hue) -> [u8; 4] {
    match h {
        Hue::Body => BODY,
        Hue::Gold => KEYWORD_GOLD,
        Hue::Yellow => KEYWORD_YELLOW,
    }
}

/// The RGBA colour of a hue.
pub fn rgba_of(h: Hue) -> (c: [u8; 4])
    ensures
        c == hue_rgba(h),
{
    match h {
        Hue::Body => BODY,
        Hue::Gold => KEYWORD_GOLD,
        Hue::Yellow => KEYWORD_YELLOW,
    }
}

/// One lexed item: a styled character (of character type `C`), or a split line.
#[derive(Clone, Copy, Debug, PartialEq, Eq, Structural)]
pub enum MarkOf<C> {
    Glyph { c: C, hue: Hue, italic: bool },
    Split { hue: Hue, italic: bool },
}

/// A lexed item of the markup.
pub type Mark = MarkOf<char>;

/// What a `[tag]` does.
#[derive(Clone, Copy, Debug, PartialEq, Eq, Structural)]
pub enum TagKind {
    Bold,
    EndBold,
    Italic,
    EndItalic,
    Img,
    Rule,
    Unknown,
}

pub open spec fn tag_kind_of(t: Seq<char>) -> TagKind {
    if t.len() == 1 && t[0] == 'b' {
        TagKind::Bold
    } else if t.len() == 2 && t[0] == '/' && t[1] == 'b' {
        TagKind::EndBold
    } else if t.len() == 1 && t[0] == 'i' {
        TagKind::Italic
    } else if t.len() == 2 && t[0] == '/' && t[1] == 'i' {
        TagKind::EndItalic
    } else if t.len() == 3 && t[0] == 'i' && t[1] == 'm' && t[2] == 'g' {
        TagKind::Img
    } else if t.len() == 2 && t[0] == 'h' && t[1] == 'r' {
        TagKind::Rule
    } else {
        TagKind::Unknown
    }
}

/// `[/img]` starts at index `q` of `s`.
pub open spec fn img_close_at(s: Seq<char>, q: int) -> bool {
    &&& 0 <= q
    &&& q + 6 <= s.len()
    &&& s[q] == '['
    &&& s[q + 1] == '/'
    &&& s[q + 2] == 'i'
    &&& s[q + 3] == 'm'
    &&& s[q + 4] == 'g'
    &&& s[q + 5] == ']'
}

/// `q` is the first place where `[/img]` starts in `s`.
pub open spec fn first_img_close(s: Seq<char>, q: int) -> bool {
    &&& img_close_at(s, q)
    &&& forall|j: int| 0 <= j < q ==> !img_close_at(s, j)
}

/// What is left of `s` after the first `[/img]` (all of `s` when there is none).
pub open spec fn after_img(s: Seq<char>) -> Seq<char> {
    if exists|q: int| first_img_close(s, q) {
        let q = choose|q: int| first_img_close(s, q);
        s.skip(q + 6)
    } else {
        s
    }
}

pub open spec fn closing_of(open: char) -> char {
    if open == '【' {
        '】'
    } else {
        '』'
    }
}

pub open spec fn is_bracket_open(c: char) -> bool {
    c == '【' || c == '『'
}

/// Inside brackets digits and `_` stay white, everything else is yellow.
pub open spec fn bracket_hue(c: char) -> Hue {
    if c == '_' || ('0' <= c && c <= '9') {
        Hue::Body
    } else {
        Hue::Yellow
    }
}

pub open spec fn bracket_marks(inner: Seq<char>, italic: bool) -> Seq<Mark>
    decreases inner.len(),
{
    if inner.len() == 0 {
        seq![]
    } else {
        bracket_marks(inner.drop_last(), italic).push(
            Mark::Glyph { c: inner.last(), hue: bracket_hue(inner.last()), italic: italic },
        )
    }
}

/// The styled characters and split lines of `s`, read with colour `hue` and
/// italic state `italic`.
#[verifier::opaque]
pub open spec fn lex(s: Seq<char>, hue: Hue, italic: bool) -> Seq<Mark>
    decreases s.len(),
{
    if s.len() == 0 {
        seq![]
    } else if s[0] == '[' {
        if exists|k: int| first_at(s, ']', k) {
            let k = choose|k: int| first_at(s, ']', k);
            let rest = s.skip(k + 1);
            match tag_kind_of(s.subrange(1, k)) {
                TagKind::Bold => lex(rest, Hue::Gold, italic),
                TagKind::EndBold => lex(rest, Hue::Body, italic),
                TagKind::Italic => lex(rest, hue, true),
                TagKind::EndItalic => lex(rest, hue, false),
                TagKind::Img => {
                    proof {
                        lemma_after_img_len(rest);
                    }
                    seq![Mark::Split { hue: hue, italic: italic }] + lex(after_img(rest), hue, italic)
                },
                TagKind::Rule => seq![Mark::Split { hue: hue, italic: italic }] + lex(rest, hue, italic),
                TagKind::Unknown => seq![Mark::Glyph { c: '[', hue: hue, italic: italic }] + lex(
                    rest,
                    hue,
                    italic,
                ),
            }
        } else {
            seq![Mark::Glyph { c: '[', hue: hue, italic: italic }] + lex(s.skip(1), hue, italic)
        }
    } else if is_bracket_open(s[0]) {
        let closing = closing_of(s[0]);
        let t = s.skip(1);
        let open = seq![Mark::Glyph { c: s[0], hue: Hue::Body, italic: italic }];
        let close = seq![Mark::Glyph { c: closing, hue: Hue::Body, italic: italic }];
        if exists|q: int| first_at(t, closing, q) {
            let q = choose|q: int| first_at(t, closing, q);
            open + bracket_marks(t.take(q), italic) + close + lex(t.skip(q + 1), hue, italic)
        } else {
            open + bracket_marks(t, italic) + close
        }
    } else {
        seq![Mark::Glyph { c: s[0], hue: hue, italic: italic }] + lex(s.skip(1), hue, italic)
    }
}

pub proof fn lemma_after_img_len(s: Seq<char>)
    ensures
        after_img(s).len() <= s.len(),
{
}

pub proof fn lemma_first_img_close_unique(s: Seq<char>, q: int)
    requires
        first_img_close(s, q),
    ensures
        after_img(s) == s.skip(q + 6),
{
    let q2 = choose|q2: int| first_img_close(s, q2);
    assert(first_img_close(s, q2));
    if q2 < q {
        assert(img_close_at(s, q2));
    } else if q < q2 {
        assert(img_close_at(s, q));
    }
}

fn tag_kind(cs: &Vec<char>, start: usize, end: usize) -> (k: TagKind)
    requires
        start <= end <= cs.len(),
    ensures
        k == tag_kind_of(cs@.subrange(start as int, end as int)),
{
    let len = end - start;
    if len == 1 && cs[start] == 'b' {
        TagKind::Bold
    } else if len == 2 && cs[start] == '/' && cs[start + 1] == 'b' {
        TagKind::EndBold
    } else if len == 1 && cs[start] == 'i' {
        TagKind::Italic
    } else if len == 2 && cs[start] == '/' && cs[start + 1] == 'i' {
        TagKind::EndItalic
    } else if len == 3 && cs[start] == 'i' && cs[start + 1] == 'm' && cs[start + 2] == 'g' {
        TagKind::Img
    } else if len == 2 && cs[start] == 'h' && cs[start + 1] == 'r' {
        TagKind::Rule
    } else {
        TagKind::Unknown
    }
}

fn char_at(cs: &Vec<char>, i: usize) -> (c: char)
    requires
        i < cs.len(),
    ensures
        c == cs@[i as int],
{
    cs[i]
}

fn img_close_here(cs: &Vec<char>, q: usize) -> (b: bool)
    requires
        q + 6 <= cs.len(),
    ensures
        b == img_close_at(cs@, q as int),
{
    cs[q] == '[' && cs[q + 1] == '/' && cs[q + 2] == 'i' && cs[q + 3] == 'm' && cs[q + 4] == 'g'
        && cs[q + 5] == ']'
}

fn bracket_hue_of(c: char) -> (h: Hue)
    ensures
        h == bracket_hue(c),
{
    if c == '_' || ('0' <= c && c <= '9') {
        Hue::Body
    } else {
        Hue::Yellow
    }
}

/// The index just past the first `[/img]` at or after `from`, or `from` itself
/// when there is none.
fn skip_img(cs: &Vec<char>, from: usize) -> (r: usize)
    requires
        from <= cs.len(),
    ensures
        from <= r <= cs.len(),
        cs@.skip(r as int) == after_img(cs@.skip(from as int)),
{
    let n = cs.len();
    let ghost rest = cs@.skip(from as int);
    let mut p = from;
    while n >= 6 && p <= n - 6 && !img_close_here(cs, p)
        invariant
            n == cs.len(),
            from <= p <= n,
            rest == cs@.skip(from as int),
            forall|q: int| 0 <= q < p - from ==> !img_close_at(rest, q),
        decreases n - p,
    {
        assert(!img_close_at(rest, p - from));
        p += 1;
    }
    if n >= 6 && p <= n - 6 {
        assert(img_close_at(rest, p - from));
        assert(first_img_close(rest, p - from));
        proof {
            lemma_first_img_close_unique(rest, p - from);
        }
        assert(rest.skip(p - from + 6) =~= cs@.skip(p + 6));
        p + 6
    } else {
        assert forall|q: int| !first_img_close(rest, q) by {
            if first_img_close(rest, q) {
                assert(img_close_at(rest, q));
            }
        }
        from
    }
}

pub proof fn lemma_lex_empty(s: Seq<char>, hue: Hue, italic: bool)
    requires
        s.len() == 0,
    ensures
        lex(s, hue, italic) == Seq::<Mark>::empty(),
{
    reveal(lex);
}

pub proof fn lemma_lex_plain(s: Seq<char>, c: char, hue: Hue, italic: bool)
    requires
        s.len() > 0,
        s[0] == c,
        c != '[',
        !is_bracket_open(c),
    ensures
        lex(s, hue, italic) == seq![Mark::Glyph { c: c, hue: hue, italic: italic }] + lex(
            s.skip(1),
            hue,
            italic,
        ),
{
    reveal(lex);
}

pub proof fn lemma_lex_lone_open(s: Seq<char>, hue: Hue, italic: bool)
    requires
        s.len() > 0,
        s[0] == '[',
        forall|k: int| !first_at(s, ']', k),
    ensures
        lex(s, hue, italic) == seq![Mark::Glyph { c: '[', hue: hue, italic: italic }] + lex(
            s.skip(1),
            hue,
            italic,
        ),
{
    reveal(lex);
}

pub proof fn lemma_lex_tag(s: Seq<char>, hue: Hue, italic: bool, k: int)
    requires
        s.len() > 0,
        s[0] == '[',
        first_at(s, ']', k),
    ensures
        lex(s, hue, italic) == match tag_kind_of(s.subrange(1, k)) {
            TagKind::Bold => lex(s.skip(k + 1), Hue::Gold, italic),
            TagKind::EndBold => lex(s.skip(k + 1), Hue::Body, italic),
            TagKind::Italic => lex(s.skip(k + 1), hue, true),
            TagKind::EndItalic => lex(s.skip(k + 1), hue, false),
            TagKind::Img => seq![Mark::Split { hue: hue, italic: italic }] + lex(
                after_img(s.skip(k + 1)),
                hue,
                italic,
            ),
            TagKind::Rule => seq![Mark::Split { hue: hue, italic: italic }] + lex(
                s.skip(k + 1),
                hue,
                italic,
            ),
            TagKind::Unknown => seq![Mark::Glyph { c: '[', hue: hue, italic: italic }] + lex(
                s.skip(k + 1),
                hue,
                italic,
            ),
        },
{
    reveal(lex);
    lemma_first_at_unique(s, ']', k);
}

pub proof fn lemma_lex_bracket_closed(s: Seq<char>, c: char, hue: Hue, italic: bool, q: int)
    requires
        s.len() > 0,
        s[0] == c,
        is_bracket_open(c),
        first_at(s.skip(1), closing_of(c), q),
    ensures
        lex(s, hue, italic) == seq![Mark::Glyph { c: c, hue: Hue::Body, italic: italic }]
            + bracket_marks(s.skip(1).take(q), italic) + seq![
            Mark::Glyph { c: closing_of(c), hue: Hue::Body, italic: italic },
        ] + lex(s.skip(1).skip(q + 1), hue, italic),
{
    reveal(lex);
    lemma_first_at_unique(s.skip(1), closing_of(c), q);
}

pub proof fn lemma_lex_bracket_unclosed(s: Seq<char>, c: char, hue: Hue, italic: bool)
    requires
        s.len() > 0,
        s[0] == c,
        is_bracket_open(c),
        forall|q: int| !first_at(s.skip(1), closing_of(c), q),
    ensures
        lex(s, hue, italic) == seq![Mark::Glyph { c: c, hue: Hue::Body, italic: italic }]
            + bracket_marks(s.skip(1), italic) + seq![
            Mark::Glyph { c: closing_of(c), hue: Hue::Body, italic: italic },
        ],
{
    reveal(lex);
}

/// Lexes the `[` at `cs[i]`: a tag, or a plain `[` when no `]` follows.
fn lex_tag_at(cs: &Vec<char>, i: usize, hue: Hue, italic: bool, out: &mut Vec<Mark>) -> (r: (
    usize,
    Hue,
    bool,
))
    requires
        i < cs.len(),
        cs@[i as int] == '[',
    ensures
        i < r.0 <= cs.len(),
        old(out)@ + lex(cs@.skip(i as int), hue, italic) == final(out)@ + lex(
            cs@.skip(r.0 as int),
            r.1,
            r.2,
        ),
{
    let ghost s = cs@.skip(i as int);
    let ghost out0 = out@;
    let n = cs.len();
    let mut j = i + 1;
    while j < n && cs[j] != ']'
        invariant
            n == cs.len(),
            i < j <= n,
            cs@[i as int] == '[',
            forall|q: int| i <= q < j ==> cs@[q] != ']',
        decreases n - j,
    {
        j += 1;
    }
    if j < n {
        let ghost k = j - i;
        assert(first_at(s, ']', k));
        proof {
            lemma_lex_tag(s, hue, italic, k);
        }
        assert(s.subrange(1, k) =~= cs@.subrange(i + 1, j as int));
        assert(s.skip(k + 1) =~= cs@.skip(j + 1));
        let kind = tag_kind(cs, i + 1, j);
        match kind {
            TagKind::Bold => (j + 1, Hue::Gold, italic),
            TagKind::EndBold => (j + 1, Hue::Body, italic),
            TagKind::Italic => (j + 1, hue, true),
            TagKind::EndItalic => (j + 1, hue, false),
            TagKind::Img => {
                out.push(Mark::Split { hue: hue, italic: italic });
                let next = skip_img(cs, j + 1);
                assert(out@ =~= out0 + seq![Mark::Split { hue: hue, italic: italic }]);
                (next, hue, italic)
            },
            TagKind::Rule => {
                out.push(Mark::Split { hue: hue, italic: italic });
                assert(out@ =~= out0 + seq![Mark::Split { hue: hue, italic: italic }]);
                (j + 1, hue, italic)
            },
            TagKind::Unknown => {
                out.push(Mark::Glyph { c: '[', hue: hue, italic: italic });
                assert(out@ =~= out0 + seq![Mark::Glyph { c: '[', hue: hue, italic: italic }]);
                (j + 1, hue, italic)
            },
        }
    } else {
        assert forall|k: int| !first_at(s, ']', k) by {
            if first_at(s, ']', k) {
                assert(cs@[i + k] == ']');
            }
        }
        proof {
            lemma_lex_lone_open(s, hue, italic);
        }
        out.push(Mark::Glyph { c: '[', hue: hue, italic: italic });
        assert(s.skip(1) =~= cs@.skip(i + 1));
        assert(out@ =~= out0 + seq![Mark::Glyph { c: '[', hue: hue, italic: italic }]);
        (i + 1, hue, italic)
    }
}

/// Lexes the bracket keyword that opens at `cs[i]`.
fn lex_bracket_at(cs: &Vec<char>, i: usize, hue: Hue, italic: bool, out: &mut Vec<Mark>) -> (r:
    usize)
    requires
        i < cs.len(),
        is_bracket_open(cs@[i as int]),
    ensures
        i < r <= cs.len(),
        old(out)@ + lex(cs@.skip(i as int), hue, italic) == final(out)@ + lex(
            cs@.skip(r as int),
            hue,
            italic,
        ),
{
    let ghost s = cs@.skip(i as int);
    let ghost out0 = out@;
    let n = cs.len();
    let c = char_at(cs, i);
    let closing = if c == '【' {
        '】'
    } else {
        '』'
    };
    let ghost t = s.skip(1);
    assert(t =~= cs@.skip(i + 1));
    out.push(Mark::Glyph { c: c, hue: Hue::Body, italic: italic });
    let ghost out1 = out@;
    let mut j = i + 1;
    assert(bracket_marks(cs@.subrange(i + 1, j as int), italic) =~= Seq::<Mark>::empty());
    assert(out@ =~= out1 + bracket_marks(cs@.subrange(i + 1, j as int), italic));
    while j < n && cs[j] != closing
        invariant
            n == cs.len(),
            i < j <= n,
            out@ == out1 + bracket_marks(cs@.subrange(i + 1, j as int), italic),
            forall|q: int| i < q < j ==> cs@[q] != closing,
        decreases n - j,
    {
        let cj = char_at(cs, j);
        let h = bracket_hue_of(cj);
        out.push(Mark::Glyph { c: cj, hue: h, italic: italic });
        j += 1;
        assert(cs@.subrange(i + 1, j as int).drop_last() =~= cs@.subrange(i + 1, j - 1));
    }
    out.push(Mark::Glyph { c: closing, hue: Hue::Body, italic: italic });
    let ghost open = seq![Mark::Glyph { c: c, hue: Hue::Body, italic: italic }];
    let ghost close = seq![Mark::Glyph { c: closing, hue: Hue::Body, italic: italic }];
    let ghost inner = bracket_marks(cs@.subrange(i + 1, j as int), italic);
    assert(out@ =~= out0 + open + inner + close);
    if j < n {
        let ghost q = j - (i + 1);
        assert(first_at(t, closing, q));
        proof {
            lemma_lex_bracket_closed(s, c, hue, italic, q);
        }
        assert(t.take(q) =~= cs@.subrange(i + 1, j as int));
        assert(t.skip(q + 1) =~= cs@.skip(j + 1));
        j + 1
    } else {
        assert forall|q: int| !first_at(t, closing, q) by {
            if first_at(t, closing, q) {
                assert(cs@[i + 1 + q] == closing);
            }
        }
        assert(t =~= cs@.subrange(i + 1, n as int));
        proof {
            lemma_lex_bracket_unclosed(s, c, hue, italic);
            lemma_lex_empty(cs@.skip(n as int), hue, italic);
        }
        assert(out@ + lex(cs@.skip(n as int), hue, italic) =~= out@);
        n
    }
}

/// Lexes the ordinary character at `cs[i]`.
fn lex_plain_at(cs: &Vec<char>, i: usize, hue: Hue, italic: bool, out: &mut Vec<Mark>)
    requires
        i < cs.len(),
        cs@[i as int] != '[',
        !is_bracket_open(cs@[i as int]),
    ensures
        old(out)@ + lex(cs@.skip(i as int), hue, italic) == final(out)@ + lex(
            cs@.skip(i + 1),
            hue,
            italic,
        ),
{
    let ghost s = cs@.skip(i as int);
    let c = char_at(cs, i);
    proof {
        lemma_lex_plain(s, c, hue, italic);
    }
    let m = Mark::Glyph { c: c, hue: hue, italic: italic };
    out.push(m);
    assert(s.skip(1) =~= cs@.skip(i + 1));
    assert(old(out)@ + seq![m] =~= out@);
}

/// Lexes the whole of `cs`.
pub fn lex_chars(cs: &Vec<char>) -> (ms: Vec<Mark>)
    ensures
        ms@ == lex(cs@, Hue::Body, false),
{
    let n = cs.len();
    let mut out: Vec<Mark> = Vec::new();
    let mut i: usize = 0;
    let mut hue = Hue::Body;
    let mut italic = false;
    assert(cs@.skip(0) =~= cs@);
    assert(out@ + lex(cs@, Hue::Body, false) =~= lex(cs@, Hue::Body, false));
    while i < n
        invariant
            n == cs.len(),
            i <= n,
            lex(cs@, Hue::Body, false) == out@ + lex(cs@.skip(i as int), hue, italic),
        decreases n - i,
    {
        let ghost s = cs@.skip(i as int);
        let ghost out0 = out@;
        let c = cs[i];
        assert(s.len() > 0 && s[0] == c);
        if c == '[' {
            let r = lex_tag_at(cs, i, hue, italic, &mut out);
            i = r.0;
            hue = r.1;
            italic = r.2;
        } else if c == '【' || c == '『' {
            i = lex_bracket_at(cs, i, hue, italic, &mut out);
        } else {
            lex_plain_at(cs, i, hue, italic, &mut out);
            i = i + 1;
        }
    }
    proof {
        lemma_lex_empty(cs@.skip(n as int), hue, italic);
    }
    assert(out@ + lex(cs@.skip(n as int), hue, italic) =~= out@);
    out
}

/// A run as the grouping step sees it.
pub struct StyledRun {
    pub text: Seq<char>,
    pub hue: Hue,
    pub italic: bool,
    pub split: bool,
}

/// Adds one mark to the runs built so far: a character joins the last run
/// when that run is text of the same style, otherwise it opens a new run.
pub open spec fn absorb(g: Seq<StyledRun>, m: Mark) -> Seq<StyledRun> {
    match m {
        Mark::Split { hue, italic } => g.push(
            StyledRun { text: seq![], hue: hue, italic: italic, split: true },
        ),
        Mark::Glyph { c, hue, italic } => {
            if g.len() > 0 && !g.last().split && g.last().hue == hue && g.last().italic == italic {
                g.update(
                    g.len() - 1,
                    StyledRun { text: g.last().text.push(c), hue: hue, italic: italic, split: false },
                )
            } else {
                g.push(StyledRun { text: seq![c], hue: hue, italic: italic, split: false })
            }
        },
    }
}

pub open spec fn group(ms: Seq<Mark>) -> Seq<StyledRun>
    decreases ms.len(),
{
    if ms.len() == 0 {
        seq![]
    } else {
        absorb(group(ms.drop_last()), ms.last())
    }
}

/// The runs that `text` parses to.
pub open spec fn rich_runs(text: Seq<char>) -> Seq<StyledRun> {
    group(lex(text, Hue::Body, false))
}

/// A styled run of text produced by parsing the DIY card markup.
pub struct RichRun {
    pub text: String,
    pub color: [u8; 4],
    pub italic: bool,
    /// `[img]…[/img]` or `[hr]` — rendered as a full-width split line by the caller.
    pub split: bool,
}

/// `r` is the run `s` painted in its colour.
pub open spec fn run_is(r: RichRun, s: StyledRun) -> bool {
    &&& r.text@ == s.text
    &&& r.color == hue_rgba(s.hue)
    &&& r.italic == s.italic
    &&& r.split == s.split
}

pub open spec fn runs_are(rs: Seq<RichRun>, ss: Seq<StyledRun>) -> bool {
    &&& rs.len() == ss.len()
    &&& forall|i: int| 0 <= i < rs.len() ==> run_is(#[trigger] rs[i], ss[i])
}


pub proof fn lemma_group_step(ms: Seq<Mark>, i: int)
    requires
        0 <= i < ms.len(),
    ensures
        group(ms.take(i + 1)) == absorb(group(ms.take(i)), ms[i]),
{
    assert(ms.take(i + 1).drop_last() =~= ms.take(i));
}

fn pending_run(text: String, hue: Hue, italic: bool) -> (r: RichRun)
    ensures
        run_is(r, StyledRun { text: text@, hue: hue, italic: italic, split: false }),
{
    RichRun { text: text, color: rgba_of(hue), italic: italic, split: false }
}

/// Joins neighbouring characters of equal style into runs.
pub fn group_marks(ms: &Vec<Mark>) -> (runs: Vec<RichRun>)
    ensures
        runs_are(runs@, group(ms@)),
{
    let n = ms.len();
    let mut runs: Vec<RichRun> = Vec::new();
    let mut has_pending = false;
    let mut ptext = String::new();
    let mut phue = Hue::Body;
    let mut pit = false;
    let mut i: usize = 0;
    assert(ms@.take(0) =~= Seq::<Mark>::empty());
    while i < n
        invariant
            n == ms.len(),
            i <= n,
            has_pending ==> ({
                let g = group(ms@.take(i as int));
                &&& g.len() == runs@.len() + 1
                &&& runs_are(runs@, g.take(runs@.len() as int))
                &&& g.last() == StyledRun { text: ptext@, hue: phue, italic: pit, split: false }
            }),
            !has_pending ==> ({
                let g = group(ms@.take(i as int));
                &&& runs_are(runs@, g)
                &&& (g.len() == 0 || g.last().split)
            }),
        decreases n - i,
    {
        let ghost g = group(ms@.take(i as int));
        let ghost runs0 = runs@;
        proof {
            lemma_group_step(ms@, i as int);
        }
        let m = ms[i];
        match m {
            Mark::Split { hue, italic } => {
                if has_pending {
                    let mut t = String::new();
                    std::mem::swap(&mut t, &mut ptext);
                    runs.push(pending_run(t, phue, pit));
                    has_pending = false;
                    assert(g.take(runs0.len() as int).push(g.last()) =~= g);
                }
                let ghost runs1 = runs@;
                assert(runs_are(runs1, g));
                runs.push(RichRun { text: String::new(), color: rgba_of(hue), italic: italic, split: true });
                assert(runs_are(runs@, absorb(g, m))) by {
                    assert forall|k: int| 0 <= k < runs@.len() implies run_is(
                        #[trigger] runs@[k],
                        absorb(g, m)[k],
                    ) by {
                        if k < runs1.len() {
                            assert(runs@[k] == runs1[k]);
                        }
                    }
                }
            },
            Mark::Glyph { c, hue, italic } => {
                if has_pending && phue == hue && pit == italic {
                    push_char(&mut ptext, c);
                    assert(absorb(g, m) =~= g.update(
                        g.len() - 1,
                        StyledRun { text: ptext@, hue: hue, italic: italic, split: false },
                    ));
                    assert(absorb(g, m).take(runs@.len() as int) =~= g.take(runs@.len() as int));
                } else {
                    if has_pending {
                        let mut t = String::new();
                        std::mem::swap(&mut t, &mut ptext);
                        runs.push(pending_run(t, phue, pit));
                        has_pending = false;
                        assert(g.take(runs0.len() as int).push(g.last()) =~= g);
                        assert(runs_are(runs@, g)) by {
                            assert forall|k: int| 0 <= k < runs@.len() implies run_is(
                                #[trigger] runs@[k],
                                g[k],
                            ) by {
                                if k < runs0.len() {
                                    assert(runs@[k] == runs0[k]);
                                    assert(g.take(runs0.len() as int)[k] == g[k]);
                                }
                            }
                        }
                    }
                    let mut t = String::new();
                    push_char(&mut t, c);
                    ptext = t;
                    phue = hue;
                    pit = italic;
                    has_pending = true;
                    assert(ptext@ =~= seq![c]);
                    assert(absorb(g, m).take(runs@.len() as int) =~= g);
                }
            },
        }
        i += 1;
    }
    assert(ms@.take(n as int) =~= ms@);
    if has_pending {
        let ghost g = group(ms@);
        let ghost runs0 = runs@;
        runs.push(pending_run(ptext, phue, pit));
        assert(g.take(runs0.len() as int).push(g.last()) =~= g);
        assert forall|k: int| 0 <= k < runs@.len() implies run_is(#[trigger] runs@[k], g[k]) by {
            if k < runs0.len() {
                assert(runs@[k] == runs0[k]);
                assert(g.take(runs0.len() as int)[k] == g[k]);
            }
        }
    }
    runs
}

/// Parse the markup of the DIY description text into styled runs.
pub fn parse_rich(text: &str) -> (runs: Vec<RichRun>)
    ensures
        runs_are(runs@, rich_runs(text@)),
{
    let cs = chars_of(text);
    let ms = lex_chars(&cs);
    group_marks(&ms)
}


/// Runs are well formed: text runs hold at least one character, split runs
/// hold none, and two neighbouring text runs never share a style.
pub open spec fn well_grouped(g: Seq<StyledRun>) -> bool {
    &&& forall|i: int| 0 <= i < g.len() ==> (#[trigger] g[i]).split ==> g[i].text.len() == 0
    &&& forall|i: int| 0 <= i < g.len() ==> !(#[trigger] g[i]).split ==> g[i].text.len() > 0
    &&& forall|i: int, j: int|
        #![trigger g[i], g[j]]
        0 <= i && j == i + 1 && j < g.len() && !g[i].split && !g[j].split ==> (g[i].hue
            != g[j].hue || g[i].italic != g[j].italic)
}

proof fn lemma_absorb_well_grouped(g: Seq<StyledRun>, m: Mark)
    requires
        well_grouped(g),
    ensures
        well_grouped(absorb(g, m)),
{
    let h = absorb(g, m);
    match m {
        MarkOf::Split { hue, italic } => {
            assert forall|i: int| 0 <= i < g.len() implies #[trigger] h[i] == g[i] by {}
        },
        MarkOf::Glyph { c, hue, italic } => {
            if g.len() > 0 && !g.last().split && g.last().hue == hue && g.last().italic == italic {
                assert forall|i: int| 0 <= i < g.len() - 1 implies #[trigger] h[i] == g[i] by {}
                assert(h.len() == g.len());
                assert(h[g.len() - 1].text.len() > 0);
            } else {
                assert forall|i: int| 0 <= i < g.len() implies #[trigger] h[i] == g[i] by {}
            }
        },
    }
}

proof fn lemma_group_well_grouped(ms: Seq<Mark>)
    ensures
        well_grouped(group(ms)),
    decreases ms.len(),
{
    if ms.len() > 0 {
        lemma_group_well_grouped(ms.drop_last());
        lemma_absorb_well_grouped(group(ms.drop_last()), ms.last());
    }
}

/// Every run that `parse_rich` returns is well formed: a text run is never
/// empty, a split run carries no text, and two neighbouring text runs always
/// differ in colour or slant (runs are as long as possible).
pub proof fn law_runs_are_maximal(text: Seq<char>)
    ensures
        well_grouped(rich_runs(text)),
{
    lemma_group_well_grouped(lex(text, Hue::Body, false));
}

pub open spec fn glyph(c: char, hue: Hue, italic: bool) -> Mark {
    Mark::Glyph { c: c, hue: hue, italic: italic }
}

pub open spec fn white_run(text: Seq<char>) -> StyledRun {
    StyledRun { text: text, hue: Hue::Body, italic: false, split: false }
}

/// No markup character: no `[`, `【` or `『`.
pub open spec fn is_plain(s: Seq<char>) -> bool {
    forall|i: int| 0 <= i < s.len() ==> s[i] != '[' && !is_bracket_open(#[trigger] s[i])
}

proof fn lemma_lex_plain_text(s: Seq<char>, hue: Hue, italic: bool)
    requires
        is_plain(s),
    ensures
        lex(s, hue, italic).len() == s.len(),
        forall|i: int|
            0 <= i < s.len() ==> #[trigger] lex(s, hue, italic)[i] == glyph(s[i], hue, italic),
    decreases s.len(),
{
    if s.len() == 0 {
        lemma_lex_empty(s, hue, italic);
    } else {
        let c = s[0];
        assert(is_plain(s.skip(1))) by {
            assert forall|i: int| 0 <= i < s.skip(1).len() implies s.skip(1)[i] != '['
                && !is_bracket_open(#[trigger] s.skip(1)[i]) by {
                assert(s.skip(1)[i] == s[i + 1]);
            }
        }
        assert(s[0] != '[' && !is_bracket_open(s[0]));
        lemma_lex_plain(s, c, hue, italic);
        lemma_lex_plain_text(s.skip(1), hue, italic);
        assert forall|i: int| 0 <= i < s.len() implies #[trigger] lex(s, hue, italic)[i]
            == glyph(s[i], hue, italic) by {
            if i > 0 {
                assert(lex(s, hue, italic)[i] == lex(s.skip(1), hue, italic)[i - 1]);
                assert(s.skip(1)[i - 1] == s[i]);
                assert(lex(s.skip(1), hue, italic)[i - 1] == glyph(s.skip(1)[i - 1], hue, italic));
            } else {
                assert(lex(s, hue, italic)[0] == Mark::Glyph { c: c, hue: hue, italic: italic });
            }
        }
    }
}

proof fn lemma_group_uniform(ms: Seq<Mark>, s: Seq<char>)
    requires
        ms.len() == s.len(),
        s.len() > 0,
        forall|i: int|
            0 <= i < s.len() ==> #[trigger] ms[i] == glyph(s[i], Hue::Body, false),
    ensures
        group(ms) == seq![white_run(s)],
    decreases s.len(),
{
    assert(group(ms) == absorb(group(ms.drop_last()), ms.last()));
    if s.len() == 1 {
        assert(ms.drop_last() =~= Seq::<Mark>::empty());
        assert(group(ms.drop_last()) == Seq::<StyledRun>::empty());
        assert(ms.last() == ms[0]);
        assert(seq![s[0]] =~= s);
        assert(absorb(Seq::<StyledRun>::empty(), ms[0]) =~= seq![white_run(s)]);
    } else {
        let ms2 = ms.drop_last();
        let s2 = s.drop_last();
        assert forall|i: int| 0 <= i < s2.len() implies #[trigger] ms2[i] == glyph(s2[i], Hue::Body, false) by {
            assert(ms2[i] == ms[i]);
        }
        lemma_group_uniform(ms2, s2);
        assert(ms.last() == ms[s.len() - 1]);
        assert(s2.push(s.last()) =~= s);
        assert(absorb(seq![white_run(s2)], ms.last()) =~= seq![white_run(s)]);
    }
}

/// The characters a mark shows: its own for a glyph, none for a split line.
pub open spec fn mark_chars(m: Mark) -> Seq<char> {
    match m {
        MarkOf::Glyph { c, .. } => seq![c],
        MarkOf::Split { .. } => seq![],
    }
}

/// The characters a sequence of marks shows, in order.
pub open spec fn marks_text(ms: Seq<Mark>) -> Seq<char>
    decreases ms.len(),
{
    if ms.len() == 0 {
        seq![]
    } else {
        marks_text(ms.drop_last()) + mark_chars(ms.last())
    }
}

/// The run texts one after the other.
pub open spec fn runs_text(g: Seq<StyledRun>) -> Seq<char>
    decreases g.len(),
{
    if g.len() == 0 {
        seq![]
    } else {
        runs_text(g.drop_last()) + g.last().text
    }
}

pub open spec fn glyphs_only(ms: Seq<Mark>) -> bool {
    forall|i: int| 0 <= i < ms.len() ==> (#[trigger] ms[i]) is Glyph
}

pub open spec fn no_split_run(g: Seq<StyledRun>) -> bool {
    forall|i: int| 0 <= i < g.len() ==> !(#[trigger] g[i]).split
}

/// The closing bracket owed at the end of `s`: that of a keyword span that
/// `s` opens and never closes, or nothing.
pub open spec fn open_closer(s: Seq<char>) -> Seq<char>
    decreases s.len(),
{
    if s.len() == 0 {
        seq![]
    } else if is_bracket_open(s[0]) {
        let t = s.skip(1);
        if exists|q: int| first_at(t, closing_of(s[0]), q) {
            let q = choose|q: int| first_at(t, closing_of(s[0]), q);
            open_closer(t.skip(q + 1))
        } else {
            seq![closing_of(s[0])]
        }
    } else {
        open_closer(s.skip(1))
    }
}

proof fn lemma_marks_text_append(a: Seq<Mark>, b: Seq<Mark>)
    ensures
        marks_text(a + b) == marks_text(a) + marks_text(b),
    decreases b.len(),
{
    if b.len() == 0 {
        assert(a + b =~= a);
        assert(marks_text(a) + marks_text(b) =~= marks_text(a));
    } else {
        lemma_marks_text_append(a, b.drop_last());
        assert((a + b).drop_last() =~= a + b.drop_last());
        assert((a + b).last() == b.last());
        assert(marks_text(a) + marks_text(b) =~= marks_text(a) + marks_text(b.drop_last())
            + mark_chars(b.last()));
    }
}

proof fn lemma_marks_text_one(m: Mark)
    ensures
        marks_text(seq![m]) == mark_chars(m),
{
    assert(seq![m].drop_last() =~= Seq::<Mark>::empty());
    assert(marks_text(Seq::<Mark>::empty()) + mark_chars(m) =~= mark_chars(m));
}

proof fn lemma_bracket_marks_text(inner: Seq<char>, italic: bool)
    ensures
        marks_text(bracket_marks(inner, italic)) == inner,
        glyphs_only(bracket_marks(inner, italic)),
        bracket_marks(inner, italic).len() == inner.len(),
    decreases inner.len(),
{
    if inner.len() == 0 {
        assert(marks_text(bracket_marks(inner, italic)) =~= inner);
    } else {
        let prev = bracket_marks(inner.drop_last(), italic);
        let m = Mark::Glyph { c: inner.last(), hue: bracket_hue(inner.last()), italic: italic };
        lemma_bracket_marks_text(inner.drop_last(), italic);
        assert(prev.push(m).drop_last() =~= prev);
        assert(inner.drop_last().push(inner.last()) =~= inner);
        assert forall|i: int| 0 <= i < prev.push(m).len() implies (#[trigger] prev.push(m)[i]) is Glyph by {
            if i < prev.len() {
                assert(prev.push(m)[i] == prev[i]);
            }
        }
    }
}

proof fn lemma_glyphs_only_append(a: Seq<Mark>, b: Seq<Mark>)
    requires
        glyphs_only(a),
        glyphs_only(b),
    ensures
        glyphs_only(a + b),
{
    assert forall|i: int| 0 <= i < (a + b).len() implies (#[trigger] (a + b)[i]) is Glyph by {
        if i < a.len() {
            assert((a + b)[i] == a[i]);
        } else {
            assert((a + b)[i] == b[i - a.len()]);
        }
    }
}

/// Without tags, lexing only colours: every mark is a character, and the
/// characters are the text followed by the closing bracket it still owes.
#[verifier::spinoff_prover]
proof fn lemma_lex_untagged(s: Seq<char>, hue: Hue, italic: bool)
    requires
        forall|i: int| 0 <= i < s.len() ==> s[i] != '[',
    ensures
        glyphs_only(lex(s, hue, italic)),
        marks_text(lex(s, hue, italic)) == s + open_closer(s),
    decreases s.len(),
{
    if s.len() == 0 {
        lemma_lex_empty(s, hue, italic);
        assert(s + open_closer(s) =~= Seq::<char>::empty());
    } else if is_bracket_open(s[0]) {
        let c = s[0];
        let closing = closing_of(c);
        let t = s.skip(1);
        let open = seq![Mark::Glyph { c: c, hue: Hue::Body, italic: italic }];
        let close = seq![Mark::Glyph { c: closing, hue: Hue::Body, italic: italic }];
        lemma_marks_text_one(open[0]);
        lemma_marks_text_one(close[0]);
        assert(open =~= seq![open[0]]);
        assert(close =~= seq![close[0]]);
        if exists|q: int| first_at(t, closing, q) {
            let q = choose|q: int| first_at(t, closing, q);
            lemma_lex_bracket_closed(s, c, hue, italic, q);
            let inner = bracket_marks(t.take(q), italic);
            let rest = t.skip(q + 1);
            assert forall|i: int| 0 <= i < rest.len() implies rest[i] != '[' by {
                assert(rest[i] == s[i + q + 2]);
            }
            lemma_lex_untagged(rest, hue, italic);
            lemma_bracket_marks_text(t.take(q), italic);
            lemma_marks_text_append(open, inner);
            lemma_marks_text_append(open + inner, close);
            lemma_marks_text_append(open + inner + close, lex(rest, hue, italic));
            lemma_glyphs_only_append(open, inner);
            lemma_glyphs_only_append(open + inner, close);
            lemma_glyphs_only_append(open + inner + close, lex(rest, hue, italic));
            assert(seq![c] + t.take(q) + seq![closing] + rest =~= s);
        } else {
            lemma_lex_bracket_unclosed(s, c, hue, italic);
            let inner = bracket_marks(t, italic);
            lemma_bracket_marks_text(t, italic);
            lemma_marks_text_append(open, inner);
            lemma_marks_text_append(open + inner, close);
            lemma_glyphs_only_append(open, inner);
            lemma_glyphs_only_append(open + inner, close);
            assert(seq![c] + t =~= s);
        }
    } else {
        let c = s[0];
        lemma_lex_plain(s, c, hue, italic);
        let rest = s.skip(1);
        assert forall|i: int| 0 <= i < rest.len() implies rest[i] != '[' by {
            assert(rest[i] == s[i + 1]);
        }
        lemma_lex_untagged(rest, hue, italic);
        let first = seq![Mark::Glyph { c: c, hue: hue, italic: italic }];
        lemma_marks_text_one(first[0]);
        assert(first =~= seq![first[0]]);
        lemma_marks_text_append(first, lex(rest, hue, italic));
        lemma_glyphs_only_append(first, lex(rest, hue, italic));
        assert(seq![c] + rest =~= s);
    }
}

proof fn lemma_absorb_text(g: Seq<StyledRun>, m: Mark)
    ensures
        runs_text(absorb(g, m)) == runs_text(g) + mark_chars(m),
        no_split_run(g) && m is Glyph ==> no_split_run(absorb(g, m)),
{
    let h = absorb(g, m);
    match m {
        MarkOf::Split { hue, italic } => {
            assert(h.drop_last() =~= g);
            assert(runs_text(g) + mark_chars(m) =~= runs_text(g));
        },
        MarkOf::Glyph { c, hue, italic } => {
            if g.len() > 0 && !g.last().split && g.last().hue == hue && g.last().italic == italic {
                assert(h.drop_last() =~= g.drop_last());
                assert(runs_text(g.drop_last()) + g.last().text.push(c) =~= runs_text(g.drop_last())
                    + g.last().text + seq![c]);
                assert forall|i: int| 0 <= i < h.len() && no_split_run(g) implies !(#[trigger] h[i]).split by {
                    if i < g.len() - 1 {
                        assert(h[i] == g[i]);
                    }
                }
            } else {
                assert(h.drop_last() =~= g);
                assert forall|i: int| 0 <= i < h.len() && no_split_run(g) implies !(#[trigger] h[i]).split by {
                    if i < g.len() {
                        assert(h[i] == g[i]);
                    }
                }
            }
        },
    }
}

proof fn lemma_group_text(ms: Seq<Mark>)
    ensures
        runs_text(group(ms)) == marks_text(ms),
        glyphs_only(ms) ==> no_split_run(group(ms)),
    decreases ms.len(),
{
    if ms.len() > 0 {
        let prev = ms.drop_last();
        if glyphs_only(ms) {
            assert forall|i: int| 0 <= i < prev.len() implies (#[trigger] prev[i]) is Glyph by {
                assert(prev[i] == ms[i]);
            }
            assert(ms[ms.len() - 1] is Glyph);
        }
        lemma_group_text(prev);
        lemma_absorb_text(group(prev), ms.last());
    }
}

/// Text with no `[` (so no tags) only gets coloured: there is no split run,
/// and the run texts spell out the text, followed by the closing bracket of a
/// keyword span it leaves open at its end (so `a【b` reads `a【b】`).
pub proof fn law_runs_spell_out_text(text: Seq<char>)
    requires
        forall|i: int| 0 <= i < text.len() ==> text[i] != '[',
    ensures
        no_split_run(rich_runs(text)),
        runs_text(rich_runs(text)) == text + open_closer(text),
{
    lemma_lex_untagged(text, Hue::Body, false);
    lemma_group_text(lex(text, Hue::Body, false));
}

/// An `[img]` tag takes away everything up to the first `[/img]` after it
/// and stands as one split line: reading `[img]`, then `x` holding no
/// `[/img]`, then `[/img]` and `b`, gives one split mark and then exactly what
/// reading `b` gives (so text after a first `[img]…[/img]` pair is kept).
pub proof fn law_img_skips_to_first_close(x: Seq<char>, b: Seq<char>, hue: Hue, italic: bool)
    requires
        forall|j: int| !img_close_at(x, j),
    ensures
        lex("[img]"@ + x + "[/img]"@ + b, hue, italic) == seq![Mark::Split { hue: hue, italic: italic }]
            + lex(b, hue, italic),
{
    reveal_strlit("[img]");
    reveal_strlit("[/img]");
    let s = "[img]"@ + x + "[/img]"@ + b;
    assert(s[0] == '[' && s[1] == 'i' && s[2] == 'm' && s[3] == 'g' && s[4] == ']');
    assert(first_at(s, ']', 4));
    lemma_lex_tag(s, hue, italic, 4);
    assert(s.subrange(1, 4) =~= seq!['i', 'm', 'g']);
    let rest = s.skip(5);
    let n = x.len() as int;
    assert(rest =~= x + "[/img]"@ + b);
    assert(img_close_at(rest, n));
    assert forall|j: int| 0 <= j < n implies !img_close_at(rest, j) by {
        if j + 6 <= n {
            if img_close_at(rest, j) {
                assert(x[j] == rest[j] && x[j + 1] == rest[j + 1] && x[j + 2] == rest[j + 2]);
                assert(x[j + 3] == rest[j + 3] && x[j + 4] == rest[j + 4] && x[j + 5] == rest[j + 5]);
                assert(img_close_at(x, j));
            }
        } else {
            // the `[` that opens `[/img]` would have to be one of the
            // pattern's later characters
            assert(rest[n] == '[');
        }
    }
    assert(first_img_close(rest, n));
    lemma_first_img_close_unique(rest, n);
    assert(rest.skip(n + 6) =~= b);
}

proof fn lemma_lex_plain_prefix(a: Seq<char>, rest: Seq<char>, hue: Hue, italic: bool)
    requires
        is_plain(a),
    ensures
        lex(a + rest, hue, italic) == lex(a, hue, italic) + lex(rest, hue, italic),
    decreases a.len(),
{
    if a.len() == 0 {
        lemma_lex_empty(a, hue, italic);
        assert(a + rest =~= rest);
        assert(Seq::<Mark>::empty() + lex(rest, hue, italic) =~= lex(rest, hue, italic));
    } else {
        let c = a[0];
        assert(c != '[' && !is_bracket_open(c));
        assert(is_plain(a.skip(1))) by {
            assert forall|i: int| 0 <= i < a.skip(1).len() implies a.skip(1)[i] != '['
                && !is_bracket_open(#[trigger] a.skip(1)[i]) by {
                assert(a.skip(1)[i] == a[i + 1]);
            }
        }
        lemma_lex_plain(a, c, hue, italic);
        assert((a + rest)[0] == c);
        lemma_lex_plain(a + rest, c, hue, italic);
        assert((a + rest).skip(1) =~= a.skip(1) + rest);
        lemma_lex_plain_prefix(a.skip(1), rest, hue, italic);
        let g = seq![Mark::Glyph { c: c, hue: hue, italic: italic }];
        assert(g + (lex(a.skip(1), hue, italic) + lex(rest, hue, italic)) =~= (g + lex(
            a.skip(1),
            hue,
            italic,
        )) + lex(rest, hue, italic));
    }
}

proof fn lemma_absorb_after_split(g: Seq<StyledRun>, h: Seq<StyledRun>, m: Mark)
    requires
        g.len() > 0,
        g.last().split,
    ensures
        absorb(g + h, m) == g + absorb(h, m),
{
    if h.len() == 0 {
        assert(g + h =~= g);
        match m {
            MarkOf::Split { hue, italic } => {
                assert(g.push(StyledRun { text: seq![], hue: hue, italic: italic, split: true })
                    =~= g + h.push(StyledRun { text: seq![], hue: hue, italic: italic, split: true }));
            },
            MarkOf::Glyph { c, hue, italic } => {
                assert(g.push(StyledRun { text: seq![c], hue: hue, italic: italic, split: false })
                    =~= g + h.push(StyledRun { text: seq![c], hue: hue, italic: italic, split: false }));
            },
        }
    } else {
        assert((g + h).last() == h.last());
        assert((g + h).len() > 0);
        match m {
            MarkOf::Split { hue, italic } => {
                let r = StyledRun { text: seq![], hue: hue, italic: italic, split: true };
                assert((g + h).push(r) =~= g + h.push(r));
            },
            MarkOf::Glyph { c, hue, italic } => {
                if !h.last().split && h.last().hue == hue && h.last().italic == italic {
                    let r = StyledRun { text: h.last().text.push(c), hue: hue, italic: italic, split: false };
                    assert((g + h).update((g + h).len() - 1, r) =~= g + h.update(h.len() - 1, r));
                } else {
                    let r = StyledRun { text: seq![c], hue: hue, italic: italic, split: false };
                    assert((g + h).push(r) =~= g + h.push(r));
                }
            },
        }
    }
}

proof fn lemma_group_across_split(p: Seq<Mark>, hue: Hue, italic: bool, q: Seq<Mark>)
    ensures
        group(p + seq![Mark::Split { hue: hue, italic: italic }] + q) == group(p) + seq![
            StyledRun { text: seq![], hue: hue, italic: italic, split: true },
        ] + group(q),
    decreases q.len(),
{
    let sp = seq![Mark::Split { hue: hue, italic: italic }];
    let sr = StyledRun { text: seq![], hue: hue, italic: italic, split: true };
    if q.len() == 0 {
        assert(p + sp + q =~= p.push(sp[0]));
        assert(p.push(sp[0]).drop_last() =~= p);
        assert(group(q) =~= Seq::<StyledRun>::empty());
        assert(group(p).push(sr) =~= group(p) + seq![sr] + group(q));
    } else {
        lemma_group_across_split(p, hue, italic, q.drop_last());
        let all = p + sp + q;
        assert(all.drop_last() =~= p + sp + q.drop_last());
        assert(all.last() == q.last());
        let g = group(p) + seq![sr];
        assert(g.last() == sr);
        lemma_absorb_after_split(g, group(q.drop_last()), q.last());
    }
}

/// Between plain text before it and whatever follows, an `[img]…[/img]` pair
/// (the first `[/img]` closing it) is one split run: the runs are those of
/// the text before, one split run, and the runs of the text after.
pub proof fn law_img_pair_is_one_split_run(a: Seq<char>, x: Seq<char>, b: Seq<char>)
    requires
        is_plain(a),
        forall|j: int| !img_close_at(x, j),
    ensures
        rich_runs(a + "[img]"@ + x + "[/img]"@ + b) == rich_runs(a) + seq![
            StyledRun { text: seq![], hue: Hue::Body, italic: false, split: true },
        ] + rich_runs(b),
{
    let tail = "[img]"@ + x + "[/img]"@ + b;
    assert(a + "[img]"@ + x + "[/img]"@ + b =~= a + tail);
    lemma_lex_plain_prefix(a, tail, Hue::Body, false);
    law_img_skips_to_first_close(x, b, Hue::Body, false);
    let sp = seq![Mark::Split { hue: Hue::Body, italic: false }];
    assert(lex(a, Hue::Body, false) + (sp + lex(b, Hue::Body, false)) =~= lex(a, Hue::Body, false)
        + sp + lex(b, Hue::Body, false));
    lemma_group_across_split(lex(a, Hue::Body, false), Hue::Body, false, lex(b, Hue::Body, false));
}

/// What each tag does to the text after it: `[b]` turns it gold and `[/b]`
/// white again, `[i]` slants it and `[/i]` sets it upright, and `[hr]` puts a
/// split line before it; the tag itself shows nothing.
pub proof fn law_tags_set_style(rest: Seq<char>, hue: Hue, italic: bool)
    ensures
        lex("[b]"@ + rest, hue, italic) == lex(rest, Hue::Gold, italic),
        lex("[/b]"@ + rest, hue, italic) == lex(rest, Hue::Body, italic),
        lex("[i]"@ + rest, hue, italic) == lex(rest, hue, true),
        lex("[/i]"@ + rest, hue, italic) == lex(rest, hue, false),
        lex("[hr]"@ + rest, hue, italic) == seq![Mark::Split { hue: hue, italic: italic }] + lex(rest, hue, italic),
{
    assert(lex("[b]"@ + rest, hue, italic) == lex(rest, Hue::Gold, italic)) by {
        reveal_strlit("[b]");
        let s = "[b]"@ + rest;
        assert(first_at(s, ']', 2));
        lemma_lex_tag(s, hue, italic, 2);
        assert(s.subrange(1, 2) =~= seq!['b']);
        assert(s.skip(3) =~= rest);
    }
    assert(lex("[/b]"@ + rest, hue, italic) == lex(rest, Hue::Body, italic)) by {
        reveal_strlit("[/b]");
        let s = "[/b]"@ + rest;
        assert(first_at(s, ']', 3));
        lemma_lex_tag(s, hue, italic, 3);
        assert(s.subrange(1, 3) =~= seq!['/', 'b']);
        assert(s.skip(4) =~= rest);
    }
    assert(lex("[i]"@ + rest, hue, italic) == lex(rest, hue, true)) by {
        reveal_strlit("[i]");
        let s = "[i]"@ + rest;
        assert(first_at(s, ']', 2));
        lemma_lex_tag(s, hue, italic, 2);
        assert(s.subrange(1, 2) =~= seq!['i']);
        assert(s.skip(3) =~= rest);
    }
    assert(lex("[/i]"@ + rest, hue, italic) == lex(rest, hue, false)) by {
        reveal_strlit("[/i]");
        let s = "[/i]"@ + rest;
        assert(first_at(s, ']', 3));
        lemma_lex_tag(s, hue, italic, 3);
        assert(s.subrange(1, 3) =~= seq!['/', 'i']);
        assert(s.skip(4) =~= rest);
    }
    assert(lex("[hr]"@ + rest, hue, italic) == seq![Mark::Split { hue: hue, italic: italic }] + lex(rest, hue, italic)) by {
        reveal_strlit("[hr]");
        let s = "[hr]"@ + rest;
        assert(first_at(s, ']', 3));
        lemma_lex_tag(s, hue, italic, 3);
        assert(s.subrange(1, 3) =~= seq!['h', 'r']);
        assert(s.skip(4) =~= rest);
    }
}

/// The marks of a keyword's inner text: each character yellow, but digits and
/// `_` white.
pub open spec fn keyword_inner(x: Seq<char>, italic: bool) -> Seq<Mark> {
    Seq::new(
        x.len(),
        |k: int|
            Mark::Glyph {
                c: x[k],
                hue: if x[k] == '_' || ('0' <= x[k] && x[k] <= '9') {
                    Hue::Body
                } else {
                    Hue::Yellow
                },
                italic: italic,
            },
    )
}

proof fn lemma_bracket_marks_inner(x: Seq<char>, italic: bool)
    ensures
        bracket_marks(x, italic) == keyword_inner(x, italic),
    decreases x.len(),
{
    if x.len() > 0 {
        lemma_bracket_marks_inner(x.drop_last(), italic);
    }
    assert(bracket_marks(x, italic) =~= keyword_inner(x, italic));
}

/// A keyword in `【…】` or `『…』`: both brackets are white, the inner text
/// is yellow except for digits and `_`, and the text after the closing bracket
/// goes on in the colour it had before the keyword. A keyword left open runs
/// to the end of the text and gets its closing bracket added.
pub proof fn law_keyword_brackets(
    open: char,
    close: char,
    x: Seq<char>,
    b: Seq<char>,
    hue: Hue,
    italic: bool,
)
    requires
        (open == '【' && close == '】') || (open == '『' && close == '』'),
        forall|k: int| 0 <= k < x.len() ==> x[k] != close,
    ensures
        lex(seq![open] + x + seq![close] + b, hue, italic) == seq![
            Mark::Glyph { c: open, hue: Hue::Body, italic: italic },
        ] + keyword_inner(x, italic) + seq![Mark::Glyph { c: close, hue: Hue::Body, italic: italic }]
            + lex(b, hue, italic),
        lex(seq![open] + x, hue, italic) == seq![Mark::Glyph { c: open, hue: Hue::Body, italic: italic }]
            + keyword_inner(x, italic) + seq![Mark::Glyph { c: close, hue: Hue::Body, italic: italic }],
{
    lemma_bracket_marks_inner(x, italic);
    let s = seq![open] + x + seq![close] + b;
    assert(s.skip(1) =~= x + seq![close] + b);
    assert(first_at(s.skip(1), closing_of(open), x.len() as int));
    lemma_lex_bracket_closed(s, open, hue, italic, x.len() as int);
    assert(s.skip(1).take(x.len() as int) =~= x);
    assert(s.skip(1).skip(x.len() as int + 1) =~= b);
    let u = seq![open] + x;
    assert(u.skip(1) =~= x);
    assert forall|q: int| !first_at(u.skip(1), closing_of(open), q) by {
        if first_at(u.skip(1), closing_of(open), q) {
            assert(x[q] == close);
        }
    }
    lemma_lex_bracket_unclosed(u, open, hue, italic);
}

/// Text without markup (no `[`, `【` or `『`) parses to a single white,
/// upright run holding the whole text; the empty text gives no runs.
pub proof fn law_plain_text_is_one_white_run(text: Seq<char>)
    requires
        is_plain(text),
    ensures
        text.len() == 0 ==> rich_runs(text).len() == 0,
        text.len() > 0 ==> rich_runs(text) == seq![white_run(text)],
{
    lemma_lex_plain_text(text, Hue::Body, false);
    if text.len() == 0 {
        assert(lex(text, Hue::Body, false) =~= Seq::<Mark>::empty());
    } else {
        lemma_group_uniform(lex(text, Hue::Body, false), text);
    }
}


/// One item of the line breaker: a word (a run of ASCII letters, or a single
/// other character, with one following space), a newline, or a split line.
pub struct WrapItem {
    pub text: String,
    pub color: [u8; 4],
    pub italic: bool,
    pub split: bool,
    pub newline: bool,
}

/// An item as the specification sees it.
pub struct ItemView {
    pub text: Seq<char>,
    pub color: [u8; 4],
    pub italic: bool,
    pub split: bool,
    pub newline: bool,
}

impl WrapItem {
    pub open spec fn view(&self) -> ItemView {
        ItemView {
            text: self.text@,
            color: self.color,
            italic: self.italic,
            split: self.split,
            newline: self.newline,
        }
    }
}

/// A character that continues an ASCII word.
pub open spec fn word_ascii(c: char) -> bool {
    (c as u32) < 128 && c != ' ' && c != '\n'
}

/// The number of leading word characters of `s`.
pub open spec fn ascii_run(s: Seq<char>) -> nat
    decreases s.len(),
{
    if s.len() > 0 && word_ascii(s[0]) {
        1 + ascii_run(s.skip(1))
    } else {
        0
    }
}

/// The length of the word at the start of `s` (whose first character is
/// neither a space nor a newline).
pub open spec fn word_len(s: Seq<char>) -> int {
    if (s[0] as u32) < 128 {
        ascii_run(s) as int
    } else {
        1
    }
}

pub open spec fn word_item(text: Seq<char>, color: [u8; 4], italic: bool) -> ItemView {
    ItemView { text: text, color: color, italic: italic, split: false, newline: false }
}

pub open spec fn newline_item(color: [u8; 4], italic: bool) -> ItemView {
    ItemView { text: seq![], color: color, italic: italic, split: false, newline: true }
}

pub proof fn lemma_ascii_run_bound(s: Seq<char>)
    ensures
        ascii_run(s) <= s.len(),
        s.len() > 0 && word_ascii(s[0]) ==> ascii_run(s) >= 1,
    decreases s.len(),
{
    if s.len() > 0 && word_ascii(s[0]) {
        lemma_ascii_run_bound(s.skip(1));
    }
}

/// The items of a text run: newlines, and words that carry the one space
/// that follows them; other spaces are dropped.
pub open spec fn words(s: Seq<char>, color: [u8; 4], italic: bool) -> Seq<ItemView>
    decreases s.len(),
{
    if s.len() == 0 {
        seq![]
    } else if s[0] == '\n' {
        seq![newline_item(color, italic)] + words(s.skip(1), color, italic)
    } else if s[0] == ' ' {
        words(s.skip(1), color, italic)
    } else {
        let k = word_len(s);
        proof {
            lemma_ascii_run_bound(s);
        }
        if k < s.len() && s[k] == ' ' {
            seq![word_item(s.take(k + 1), color, italic)] + words(s.skip(k + 1), color, italic)
        } else {
            seq![word_item(s.take(k), color, italic)] + words(s.skip(k), color, italic)
        }
    }
}

/// The items of one run.
pub open spec fn run_items(r: RichRun) -> Seq<ItemView> {
    if r.split {
        seq![ItemView { text: seq![], color: BODY, italic: false, split: true, newline: false }]
    } else {
        words(r.text@, r.color, r.italic)
    }
}

/// The items of a list of runs.
pub open spec fn all_items(rs: Seq<RichRun>) -> Seq<ItemView>
    decreases rs.len(),
{
    if rs.len() == 0 {
        seq![]
    } else {
        all_items(rs.drop_last()) + run_items(rs.last())
    }
}

pub open spec fn items_view(v: Seq<WrapItem>) -> Seq<ItemView> {
    v.map_values(|w: WrapItem| w.view())
}

/// The end of the ASCII word that starts at `cs[i]`.
fn ascii_word_end(cs: &Vec<char>, i: usize) -> (j: usize)
    requires
        i < cs.len(),
    ensures
        i <= j <= cs.len(),
        j - i == ascii_run(cs@.skip(i as int)),
{
    let n = cs.len();
    let mut j = i;
    while j < n && (cs[j] as u32) < 128 && cs[j] != ' ' && cs[j] != '\n'
        invariant
            i <= j <= n == cs@.len(),
            ascii_run(cs@.skip(i as int)) == (j - i) + ascii_run(cs@.skip(j as int)),
        decreases n - j,
    {
        assert(cs@.skip(j as int).skip(1) =~= cs@.skip(j + 1));
        j += 1;
    }
    assert(ascii_run(cs@.skip(j as int)) == 0);
    j
}

/// Appends the items of the text run `text` (coloured `color`).
fn push_words(text: &String, color: [u8; 4], italic: bool, out: &mut Vec<WrapItem>)
    ensures
        items_view(final(out)@) == items_view(old(out)@) + words(text@, color, italic),
{
    let cs = crate::text::chars_of(text.as_str());
    let n = cs.len();
    let mut i: usize = 0;
    let ghost out0 = items_view(out@);
    assert(cs@.skip(0) =~= cs@);
    assert(items_view(out@) + words(cs@, color, italic) =~= out0 + words(text@, color, italic));
    while i < n
        invariant
            i <= n == cs@.len(),
            cs@ == text@,
            out0 + words(text@, color, italic) == items_view(out@) + words(
                cs@.skip(i as int),
                color,
                italic,
            ),
        decreases n - i,
    {
        let ghost s = cs@.skip(i as int);
        let ghost before = items_view(out@);
        let c = char_at(&cs, i);
        assert(s[0] == c);
        if c == '\n' {
            out.push(WrapItem { text: String::new(), color: color, italic: italic, split: false, newline: true });
            assert(s.skip(1) =~= cs@.skip(i + 1));
            assert(items_view(out@) =~= before + seq![newline_item(color, italic)]);
            i += 1;
        } else if c == ' ' {
            assert(s.skip(1) =~= cs@.skip(i + 1));
            i += 1;
        } else {
            proof {
                lemma_ascii_run_bound(s);
            }
            let stop = if (c as u32) < 128 {
                ascii_word_end(&cs, i)
            } else {
                i + 1
            };
            assert(stop - i == word_len(s));
            if stop < n && cs[stop] == ' ' {
                let word = crate::text::string_from_chars(&cs, i, stop + 1);
                out.push(WrapItem { text: word, color: color, italic: italic, split: false, newline: false });
                assert(s.take(stop - i + 1) =~= cs@.subrange(i as int, stop + 1));
                assert(s.skip(stop - i + 1) =~= cs@.skip(stop + 1));
                assert(items_view(out@) =~= before + seq![word_item(s.take(stop - i + 1), color, italic)]);
                i = stop + 1;
            } else {
                let word = crate::text::string_from_chars(&cs, i, stop);
                out.push(WrapItem { text: word, color: color, italic: italic, split: false, newline: false });
                assert(s.take(stop - i) =~= cs@.subrange(i as int, stop as int));
                assert(s.skip(stop - i) =~= cs@.skip(stop as int));
                assert(items_view(out@) =~= before + seq![word_item(s.take(stop - i), color, italic)]);
                i = stop;
            }
        }
    }
    assert(words(cs@.skip(n as int), color, italic) =~= Seq::<ItemView>::empty()) by {
        assert(cs@.skip(n as int).len() == 0);
    }
    assert(items_view(out@) + Seq::<ItemView>::empty() =~= items_view(out@));
}

/// Splits runs into the items the line breaker places: words (an ASCII word,
/// or one other character, each with the single space after it), newlines
/// and split lines.
pub fn wrap_items(runs: &Vec<RichRun>) -> (items: Vec<WrapItem>)
    ensures
        items_view(items@) == all_items(runs@),
{
    let mut items: Vec<WrapItem> = Vec::new();
    let mut k: usize = 0;
    assert(runs@.take(0) =~= Seq::<RichRun>::empty());
    assert(items_view(items@) =~= Seq::<ItemView>::empty());
    while k < runs.len()
        invariant
            k <= runs@.len(),
            items_view(items@) == all_items(runs@.take(k as int)),
        decreases runs@.len() - k,
    {
        let ghost before = items_view(items@);
        assert(runs@.take(k + 1).drop_last() =~= runs@.take(k as int));
        assert(runs@.take(k + 1).last() == runs@[k as int]);
        let r = &runs[k];
        if r.split {
            items.push(WrapItem { text: String::new(), color: BODY, italic: false, split: true, newline: false });
            assert(items_view(items@) =~= before + run_items(runs@[k as int]));
        } else {
            push_words(&r.text, r.color, r.italic, &mut items);
        }
        k += 1;
    }
    assert(runs@.take(runs@.len() as int) =~= runs@);
    items
}


/// Every item of a text is coloured and slanted as the text: no item is a
/// split line, and each has the given colour and italic flag.
proof fn lemma_words_style(s: Seq<char>, color: [u8; 4], italic: bool)
    ensures
        forall|k: int|
            0 <= k < words(s, color, italic).len() ==> {
                let it = #[trigger] words(s, color, italic)[k];
                it.color == color && it.italic == italic && !it.split
            },
    decreases s.len(),
{
    if s.len() > 0 {
        let w = words(s, color, italic);
        let (head, rest): (Seq<ItemView>, Seq<char>) = if s[0] == '\n' {
            (seq![newline_item(color, italic)], s.skip(1))
        } else if s[0] == ' ' {
            (seq![], s.skip(1))
        } else {
            let k = word_len(s);
            lemma_ascii_run_bound(s);
            if k < s.len() && s[k] == ' ' {
                (seq![word_item(s.take(k + 1), color, italic)], s.skip(k + 1))
            } else {
                (seq![word_item(s.take(k), color, italic)], s.skip(k))
            }
        };
        assert(w == head + words(rest, color, italic));
        lemma_words_style(rest, color, italic);
        assert forall|k: int| 0 <= k < w.len() implies {
            let it = #[trigger] w[k];
            it.color == color && it.italic == italic && !it.split
        } by {
            if k >= head.len() {
                assert(w[k] == words(rest, color, italic)[k - head.len()]);
            }
        }
    }
}

/// The items the line breaker gets from a text run keep the run's style:
/// each is a word or a newline (never a split line), in the run's colour,
/// italic exactly when the run is.
pub proof fn law_items_keep_run_style(r: RichRun)
    requires
        !r.split,
    ensures
        forall|k: int|
            0 <= k < run_items(r).len() ==> {
                let it = #[trigger] run_items(r)[k];
                it.color == r.color && it.italic == r.italic && !it.split
            },
{
    lemma_words_style(r.text@, r.color, r.italic);
}


/// `s` without its spaces and newlines.
pub open spec fn visible(s: Seq<char>) -> Seq<char>
    decreases s.len(),
{
    if s.len() == 0 {
        seq![]
    } else if s[0] == ' ' || s[0] == '\n' {
        visible(s.skip(1))
    } else {
        seq![s[0]] + visible(s.skip(1))
    }
}

/// How many newlines `s` holds.
pub open spec fn newline_count(s: Seq<char>) -> nat
    decreases s.len(),
{
    if s.len() == 0 {
        0
    } else {
        (if s[0] == '\n' {
            1nat
        } else {
            0nat
        }) + newline_count(s.skip(1))
    }
}

/// The texts of items one after the other.
pub open spec fn items_text(is: Seq<ItemView>) -> Seq<char>
    decreases is.len(),
{
    if is.len() == 0 {
        seq![]
    } else {
        is[0].text + items_text(is.skip(1))
    }
}

/// How many newline items there are.
pub open spec fn newline_items(is: Seq<ItemView>) -> nat
    decreases is.len(),
{
    if is.len() == 0 {
        0
    } else {
        (if is[0].newline {
            1nat
        } else {
            0nat
        }) + newline_items(is.skip(1))
    }
}

proof fn lemma_visible_append(a: Seq<char>, b: Seq<char>)
    ensures
        visible(a + b) == visible(a) + visible(b),
        newline_count(a + b) == newline_count(a) + newline_count(b),
    decreases a.len(),
{
    if a.len() == 0 {
        assert(a + b =~= b);
        assert(visible(a) + visible(b) =~= visible(b));
    } else {
        assert((a + b)[0] == a[0]);
        assert((a + b).skip(1) =~= a.skip(1) + b);
        lemma_visible_append(a.skip(1), b);
        assert(seq![a[0]] + (visible(a.skip(1)) + visible(b)) =~= (seq![a[0]] + visible(a.skip(1)))
            + visible(b));
    }
}

proof fn lemma_no_newline_count(t: Seq<char>)
    requires
        forall|i: int| 0 <= i < t.len() ==> t[i] != '\n',
    ensures
        newline_count(t) == 0,
    decreases t.len(),
{
    if t.len() > 0 {
        assert forall|i: int| 0 <= i < t.skip(1).len() implies t.skip(1)[i] != '\n' by {
            assert(t.skip(1)[i] == t[i + 1]);
        }
        lemma_no_newline_count(t.skip(1));
    }
}

proof fn lemma_ascii_run_chars(s: Seq<char>)
    ensures
        forall|i: int| 0 <= i < ascii_run(s) ==> word_ascii(#[trigger] s[i]),
    decreases s.len(),
{
    lemma_ascii_run_bound(s);
    if s.len() > 0 && word_ascii(s[0]) {
        lemma_ascii_run_chars(s.skip(1));
        lemma_ascii_run_bound(s.skip(1));
        assert forall|i: int| 0 <= i < ascii_run(s) implies word_ascii(#[trigger] s[i]) by {
            if i > 0 {
                assert(s[i] == s.skip(1)[i - 1]);
            }
        }
    }
}

proof fn lemma_items_front(item: ItemView, w: Seq<ItemView>)
    ensures
        items_text(seq![item] + w) == item.text + items_text(w),
        newline_items(seq![item] + w) == (if item.newline {
            1nat
        } else {
            0nat
        }) + newline_items(w),
{
    let all = seq![item] + w;
    assert(all[0] == item);
    assert(all.skip(1) =~= w);
}

proof fn lemma_words_text(s: Seq<char>, color: [u8; 4], italic: bool)
    ensures
        visible(items_text(words(s, color, italic))) == visible(s),
        newline_items(words(s, color, italic)) == newline_count(s),
    decreases s.len(),
{
    if s.len() > 0 {
        if s[0] == '\n' {
            lemma_words_text(s.skip(1), color, italic);
            lemma_items_front(newline_item(color, italic), words(s.skip(1), color, italic));
            assert(seq![] + items_text(words(s.skip(1), color, italic)) =~= items_text(
                words(s.skip(1), color, italic),
            ));
        } else if s[0] == ' ' {
            lemma_words_text(s.skip(1), color, italic);
        } else {
            let k = word_len(s);
            lemma_ascii_run_bound(s);
            lemma_ascii_run_chars(s);
            let kk = if k < s.len() && s[k] == ' ' {
                k + 1
            } else {
                k
            };
            let t = s.take(kk);
            let rest = s.skip(kk);
            assert(words(s, color, italic) == seq![word_item(t, color, italic)] + words(
                rest,
                color,
                italic,
            ));
            lemma_words_text(rest, color, italic);
            lemma_items_front(word_item(t, color, italic), words(rest, color, italic));
            assert(t + rest =~= s);
            lemma_visible_append(t, rest);
            lemma_visible_append(t, items_text(words(rest, color, italic)));
            assert forall|i: int| 0 <= i < t.len() implies t[i] != '\n' by {
                if i < k && (s[0] as u32) < 128 {
                    assert(word_ascii(s[i]));
                }
            }
            lemma_no_newline_count(t);
        }
    }
}

/// The items the line breaker gets from a text run lose no character and
/// move none: their texts, read one after the other, show the run's
/// characters in order (only spaces between words may be dropped), and there
/// is one newline item for each newline of the run.
pub proof fn law_items_keep_run_text(r: RichRun)
    requires
        !r.split,
    ensures
        visible(items_text(run_items(r))) == visible(r.text@),
        newline_items(run_items(r)) == newline_count(r.text@),
{
    lemma_words_text(r.text@, r.color, r.italic);
}


/// The marks a run stands for: one split line, or each of its characters in
/// the run's colour and slant.
pub open spec fn run_marks(r: StyledRun) -> Seq<Mark> {
    if r.split {
        seq![Mark::Split { hue: r.hue, italic: r.italic }]
    } else {
        Seq::new(r.text.len(), |k: int| Mark::Glyph { c: r.text[k], hue: r.hue, italic: r.italic })
    }
}

/// The marks a list of runs stands for, run after run.
pub open spec fn expand(g: Seq<StyledRun>) -> Seq<Mark>
    decreases g.len(),
{
    if g.len() == 0 {
        seq![]
    } else {
        expand(g.drop_last()) + run_marks(g.last())
    }
}

proof fn lemma_expand_absorb(g: Seq<StyledRun>, m: Mark)
    ensures
        expand(absorb(g, m)) == expand(g) + seq![m],
{
    let h = absorb(g, m);
    match m {
        MarkOf::Split { hue, italic } => {
            assert(h.drop_last() =~= g);
        },
        MarkOf::Glyph { c, hue, italic } => {
            if g.len() > 0 && !g.last().split && g.last().hue == hue && g.last().italic == italic {
                assert(h.drop_last() =~= g.drop_last());
                assert(run_marks(h.last()) =~= run_marks(g.last()) + seq![m]);
            } else {
                assert(h.drop_last() =~= g);
                assert(run_marks(h.last()) =~= seq![m]);
            }
        },
    }
}

proof fn lemma_expand_group(ms: Seq<Mark>)
    ensures
        expand(group(ms)) == ms,
    decreases ms.len(),
{
    if ms.len() > 0 {
        lemma_expand_group(ms.drop_last());
        lemma_expand_absorb(group(ms.drop_last()), ms.last());
        assert(ms.drop_last().push(ms.last()) =~= ms);
    } else {
        assert(expand(group(ms)) =~= ms);
    }
}

/// Grouping into runs loses, adds and moves nothing: spelling the runs of a
/// text back out, character by character in each run's colour and slant and
/// one split line per split run, gives exactly the styled characters and
/// split lines the text was read as.
pub proof fn law_runs_spell_out_marks(text: Seq<char>)
    ensures
        expand(rich_runs(text)) == lex(text, Hue::Body, false),
{
    lemma_expand_group(lex(text, Hue::Body, false));
}

/// The three colours: body text white, `[b]` gold `#ffd676`, keywords yellow.
pub proof fn law_hue_colours()
    ensures
        hue_rgba(Hue::Body) == [255u8, 255u8, 255u8, 255u8],
        hue_rgba(Hue::Gold) == [255u8, 214u8, 118u8, 255u8],
        hue_rgba(Hue::Yellow) == [255u8, 255u8, 0u8, 255u8],
{
}

} // verus!
