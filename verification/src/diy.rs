//! Decisions of the 1920x1080 DIY product image that do not depend on pixels:
//! the background generation, the crest icons, the order of the description
//! panel's sections, the signature rows and the title-band name.

use vstd::prelude::*;
use vstd::string::StringExecFns;
use crate::assets::{diy_crest_asset, diy_crest_bytes, CREST_BUILTIN};
use crate::text::{chars_of, is_blank, push_char, str_eq, string_from_chars, trim};

verus! {

/// The background generation: 1 (OG dark) when asked for, 2 (byd) otherwise.
pub fn background_generation(bg_type: u8) -> (g: u8)
    ensures
        g == (if bg_type == 1 {
            1u8
        } else {
            2u8
        }),
{
    if bg_type == 1 {
        1
    } else {
        2
    }
}

/// The value of an ASCII decimal digit.
pub open spec fn digit_value(c: char) -> int {
    (c as u32) - 48
}

pub open spec fn all_digits(s: Seq<char>) -> bool {
    forall|i: int| 0 <= i < s.len() ==> '0' <= #[trigger] s[i] && s[i] <= '9'
}

/// The number a string of decimal digits writes.
pub open spec fn decimal_value(s: Seq<char>) -> int
    decreases s.len(),
{
    if s.len() == 0 {
        0
    } else {
        decimal_value(s.drop_last()) * 10 + digit_value(s.last())
    }
}

/// What `str::parse::<usize>` gives: an optional `+` and at least one digit,
/// and nothing else, whose value fits in `usize`.
pub open spec fn parsed_usize(s: Seq<char>) -> Option<usize> {
    let ds = digits_part(s);
    if ds.len() > 0 && all_digits(ds) && decimal_value(ds) <= usize::MAX {
        Some(decimal_value(ds) as usize)
    } else {
        None
    }
}

proof fn lemma_decimal_value_nonneg(s: Seq<char>)
    requires
        all_digits(s),
    ensures
        decimal_value(s) >= 0,
    decreases s.len(),
{
    if s.len() > 0 {
        assert(all_digits(s.drop_last())) by {
            assert forall|i: int| 0 <= i < s.drop_last().len() implies '0' <= #[trigger] s.drop_last()[i]
                && s.drop_last()[i] <= '9' by {
                assert(s.drop_last()[i] == s[i]);
            }
        }
        lemma_decimal_value_nonneg(s.drop_last());
        assert('0' <= s[s.len() - 1]);
    }
}

proof fn lemma_decimal_value_grows(s: Seq<char>, t: Seq<char>)
    requires
        all_digits(t),
        s.len() <= t.len(),
        s == t.take(s.len() as int),
    ensures
        decimal_value(s) <= decimal_value(t),
    decreases t.len(),
{
    if s.len() < t.len() {
        let t2 = t.drop_last();
        assert(all_digits(t2)) by {
            assert forall|i: int| 0 <= i < t2.len() implies '0' <= #[trigger] t2[i] && t2[i] <= '9' by {
                assert(t2[i] == t[i]);
            }
        }
        assert(s =~= t2.take(s.len() as int));
        lemma_decimal_value_grows(s, t2);
        lemma_decimal_value_nonneg(t2);
        assert('0' <= t[t.len() - 1]);
    } else {
        assert(s =~= t);
    }
}

pub open spec fn digits_part(s: Seq<char>) -> Seq<char> {
    if s.len() > 0 && s[0] == '+' {
        s.skip(1)
    } else {
        s
    }
}

proof fn lemma_parsed_none(s: Seq<char>)
    requires
        !all_digits(digits_part(s)) || decimal_value(digits_part(s)) > usize::MAX,
    ensures
        parsed_usize(s) is None,
{
}

/// `str::parse::<usize>`.
pub fn parse_usize(s: &str) -> (r: Option<usize>)
    ensures
        r == parsed_usize(s@),
{
    let cs = chars_of(s);
    let n = cs.len();
    let start: usize = if n > 0 && cs[0] == '+' {
        1
    } else {
        0
    };
    let ghost ds = cs@.skip(start as int);
    assert(cs@.skip(0) =~= cs@);
    assert(ds == digits_part(s@));
    if start == n {
        return None;
    }
    let mut acc: usize = 0;
    let mut i = start;
    assert(cs@.subrange(start as int, start as int) =~= Seq::<char>::empty());
    while i < n
        invariant
            start <= i <= n == cs@.len(),
            start < n,
            ds == cs@.skip(start as int),
            ds == digits_part(s@),
            all_digits(cs@.subrange(start as int, i as int)),
            acc as int == decimal_value(cs@.subrange(start as int, i as int)),
        decreases n - i,
    {
        let c = cs[i];
        let ghost prefix = cs@.subrange(start as int, i + 1);
        assert(prefix.drop_last() =~= cs@.subrange(start as int, i as int));
        if !('0' <= c && c <= '9') {
            assert(ds[i - start] == c);
            assert(!all_digits(ds));
            proof {
                lemma_parsed_none(s@);
            }
            return None;
        }
        let d = (c as u32 - 48) as usize;
        assert(all_digits(prefix)) by {
            assert forall|j: int| 0 <= j < prefix.len() implies '0' <= #[trigger] prefix[j]
                && prefix[j] <= '9' by {
                if j < prefix.len() - 1 {
                    assert(prefix[j] == cs@.subrange(start as int, i as int)[j]);
                }
            }
        }
        match acc.checked_mul(10) {
            Some(m) => match m.checked_add(d) {
                Some(v) => {
                    acc = v;
                },
                None => {
                    proof {
                        assert(prefix.last() == c);
                        assert(decimal_value(prefix) == acc * 10 + d);
                        assert(prefix =~= ds.take(prefix.len() as int));
                        if all_digits(ds) {
                            lemma_decimal_value_grows(prefix, ds);
                            assert(decimal_value(ds) > usize::MAX);
                        }
                        lemma_parsed_none(s@);
                    }
                    return None;
                },
            },
            None => {
                proof {
                    assert(prefix =~= ds.take(prefix.len() as int));
                    if all_digits(ds) {
                        lemma_decimal_value_grows(prefix, ds);
                    }
                }
                return None;
            },
        }
        i += 1;
    }
    assert(cs@.subrange(start as int, n as int) =~= ds);
    Some(acc)
}


/// `parse::<usize>` reads decimal digits: one digit is its value, a digit
/// after a number multiplies it by ten and adds the digit while that fits (and
/// gives `None` once it does not), any other character gives `None`, the empty
/// text gives `None`, and a leading `+` changes nothing.
#[verifier::spinoff_prover]
pub proof fn law_parse_usize_reads_digits(s: Seq<char>, d: char)
    ensures
        parsed_usize(seq![]) is None,
        '0' <= d <= '9' ==> parsed_usize(seq![d]) == Some((d as int - '0' as int) as usize),
        ('0' <= d <= '9' && parsed_usize(s) is Some && parsed_usize(s)->0 * 10 + (d as int - '0' as int)
            <= usize::MAX) ==> parsed_usize(s.push(d)) == Some(
            (parsed_usize(s)->0 * 10 + (d as int - '0' as int)) as usize,
        ),
        ('0' <= d <= '9' && parsed_usize(s) is Some && parsed_usize(s)->0 * 10 + (d as int - '0' as int)
            > usize::MAX) ==> parsed_usize(s.push(d)) is None,
        !('0' <= d <= '9') ==> parsed_usize(s.push(d)) is None,
        (s.len() > 0 && s[0] != '+') ==> parsed_usize(seq!['+'] + s) == parsed_usize(s),
{
    let one = seq![d];
    if '0' <= d <= '9' {
        assert(digits_part(one) == one);
        assert(one.drop_last() =~= Seq::<char>::empty());
        assert(one.last() == d);
        assert(decimal_value(one.drop_last()) == 0);
        assert(decimal_value(one) == digit_value(d));
        assert(all_digits(one));
    }
    let t = s.push(d);
    if parsed_usize(s) is Some {
        let ds = digits_part(s);
        assert(ds.len() > 0);
        assert(s.len() > 0);
        assert(t[0] == s[0]);
        if s[0] == '+' {
            assert(t.skip(1) =~= ds.push(d));
        } else {
            assert(t =~= ds.push(d));
        }
        assert(digits_part(t) =~= ds.push(d));
        assert(ds.push(d).drop_last() =~= ds);
        lemma_decimal_value_nonneg(ds);
        if '0' <= d <= '9' {
            assert(all_digits(ds.push(d))) by {
                assert forall|i: int| 0 <= i < ds.push(d).len() implies '0' <= #[trigger] ds.push(d)[i]
                    && ds.push(d)[i] <= '9' by {
                    if i < ds.len() {
                        assert(ds.push(d)[i] == ds[i]);
                    }
                }
            }
        }
    }
    if !('0' <= d <= '9') {
        let ds = digits_part(t);
        if ds.len() > 0 {
            assert(ds[ds.len() - 1] == d);
        }
    }
    if s.len() > 0 && s[0] != '+' {
        assert((seq!['+'] + s)[0] == '+');
        assert((seq!['+'] + s).skip(1) =~= s);
    }
}

/// Where a crest icon comes from.
pub enum CrestIcon {
    /// The PNG the user uploaded for this slot.
    Upload,
    /// A built-in crest, by its asset file.
    Builtin(String),
    /// No icon is drawn.
    Absent,
}

/// `upload` uses the uploaded image when there is one; `builtin:<n>` the
/// `n`-th built-in crest; anything else draws no icon.
pub open spec fn crest_icon_is(r: CrestIcon, spec: Seq<char>, has_upload: bool) -> bool {
    if spec == "upload"@ {
        if has_upload {
            r is Upload
        } else {
            r is Absent
        }
    } else if spec.len() >= 8 && spec.take(8) == "builtin:"@ && parsed_usize(spec.skip(8)) is Some
        && parsed_usize(spec.skip(8))->0 < 13 {
        r matches CrestIcon::Builtin(p) && Some(p@) == diy_crest_asset(
            CREST_BUILTIN@[parsed_usize(spec.skip(8))->0 as int]@,
        )
    } else {
        r is Absent
    }
}

/// Resolves a crest icon spec (user upload wins, then the built-in index).
pub fn crest_icon_source(spec: &str, has_upload: bool) -> (r: CrestIcon)
    ensures
        crest_icon_is(r, spec@, has_upload),
{
    if str_eq(spec, "upload") {
        return if has_upload {
            CrestIcon::Upload
        } else {
            CrestIcon::Absent
        };
    }
    let cs = chars_of(spec);
    if cs.len() < 8 {
        return CrestIcon::Absent;
    }
    let head = string_from_chars(&cs, 0, 8);
    assert(cs@.subrange(0, 8) =~= spec@.take(8));
    if !str_eq(head.as_str(), "builtin:") {
        return CrestIcon::Absent;
    }
    let idx = string_from_chars(&cs, 8, cs.len());
    assert(cs@.subrange(8, cs@.len() as int) =~= spec@.skip(8));
    match parse_usize(idx.as_str()) {
        Some(n) => {
            if n < 13 {
                match diy_crest_bytes(CREST_BUILTIN[n]) {
                    Some(p) => CrestIcon::Builtin(p),
                    None => {
                        assert(diy_crest_asset(CREST_BUILTIN@[n as int]@) is Some) by {
                            assert(crate::assets::names(CREST_BUILTIN@)[n as int]
                                == CREST_BUILTIN@[n as int]@);
                        }
                        CrestIcon::Absent
                    },
                }
            } else {
                CrestIcon::Absent
            }
        },
        None => CrestIcon::Absent,
    }
}

/// Where a crest icon comes from: `upload` is the uploaded image when there
/// is one and nothing otherwise; `builtin:<n>` for `n` from 0 to 12 is the
/// file `diy/crests/<name>.png` of the `n`-th built-in crest; text that is
/// neither gives no icon.
pub proof fn law_crest_icon_sources(r: CrestIcon, spec: Seq<char>, has_upload: bool, d: char)
    requires
        crest_icon_is(r, spec, has_upload),
    ensures
        spec == "upload"@ ==> (if has_upload {
            r is Upload
        } else {
            r is Absent
        }),
        ('0' <= d <= '9' && spec == "builtin:"@ + seq![d]) ==> (r matches CrestIcon::Builtin(p) && p@
            == "diy/crests/"@ + CREST_BUILTIN@[d as int - '0' as int]@ + ".png"@),
        ('0' <= d <= '2' && spec == "builtin:"@ + seq!['1', d]) ==> (r matches CrestIcon::Builtin(p)
            && p@ == "diy/crests/"@ + CREST_BUILTIN@[10 + d as int - '0' as int]@ + ".png"@),
        ('3' <= d <= '9' && spec == "builtin:"@ + seq!['1', d]) ==> r is Absent,
        (spec != "upload"@ && (spec.len() < 8 || spec.take(8) != "builtin:"@)) ==> r is Absent,
{
    reveal_strlit("upload");
    reveal_strlit("builtin:");
    if spec.len() >= 8 && spec.take(8) == "builtin:"@ {
        assert(spec != "upload"@) by {
            if spec == "upload"@ {
                assert(spec.len() == 6);
            }
        }
        let rest = spec.skip(8);
        if '0' <= d <= '9' && spec == "builtin:"@ + seq![d] {
            assert(rest =~= seq![d]);
            law_parse_usize_reads_digits(seq![], d);
            let i = d as int - '0' as int;
            assert(crate::assets::names(CREST_BUILTIN@)[i] == CREST_BUILTIN@[i]@);
        }
        if '0' <= d <= '9' && spec == "builtin:"@ + seq!['1', d] {
            assert(rest =~= seq!['1'].push(d));
            law_parse_usize_reads_digits(seq![], '1');
            law_parse_usize_reads_digits(seq!['1'], d);
            let i = 10 + d as int - '0' as int;
            if i < 13 {
                assert(crate::assets::names(CREST_BUILTIN@)[i] == CREST_BUILTIN@[i]@);
            }
        }
    } else {
        if '0' <= d <= '9' && spec == "builtin:"@ + seq![d] {
            assert(spec.take(8) =~= "builtin:"@);
        }
        if spec == "builtin:"@ + seq!['1', d] {
            assert(spec.take(8) =~= "builtin:"@);
        }
    }
}

/// A section of the description panel, top to bottom.
#[derive(Clone, Copy, Debug, PartialEq, Eq, Structural)]
pub enum PanelPart {
    /// The main text.
    Detail1,
    /// A split line.
    Split,
    /// The second main text.
    Detail2,
    /// The evolve banner and text.
    Evolve,
    /// The super-evolve banner and text.
    SuperEvolve,
    /// The `i`-th crest block.
    Crest(usize),
    /// The crest block of the older single-crest fields.
    LegacyCrest,
}

pub open spec fn crest_parts(n: nat) -> Seq<PanelPart>
    decreases n,
{
    if n == 0 {
        seq![]
    } else {
        crest_parts((n - 1) as nat).push(PanelPart::Crest((n - 1) as usize))
    }
}

/// The panel's sections: the main text; a split and the second text when
/// shown; a split before the evolve sections when there is a main text and an
/// evolve section shows; evolve; super evolve; then every crest block, or the
/// legacy crest when there are none and it shows.
pub open spec fn panel_parts(
    has_detail1: bool,
    show_detail2: bool,
    show_evolve: bool,
    show_super: bool,
    n_crests: nat,
    show_legacy_crest: bool,
) -> Seq<PanelPart> {
    seq![PanelPart::Detail1] + (if show_detail2 {
        seq![PanelPart::Split, PanelPart::Detail2]
    } else {
        seq![]
    }) + (if has_detail1 && (show_evolve || show_super) {
        seq![PanelPart::Split]
    } else {
        seq![]
    }) + (if show_evolve {
        seq![PanelPart::Evolve]
    } else {
        seq![]
    }) + (if show_super {
        seq![PanelPart::SuperEvolve]
    } else {
        seq![]
    }) + (if n_crests > 0 {
        crest_parts(n_crests)
    } else if show_legacy_crest {
        seq![PanelPart::LegacyCrest]
    } else {
        seq![]
    })
}

proof fn lemma_crest_parts(n: nat)
    ensures
        crest_parts(n).len() == n,
        forall|i: int| 0 <= i < n ==> #[trigger] crest_parts(n)[i] == PanelPart::Crest(i as usize),
    decreases n,
{
    if n > 0 {
        lemma_crest_parts((n - 1) as nat);
        assert forall|i: int| 0 <= i < n implies #[trigger] crest_parts(n)[i] == PanelPart::Crest(
            i as usize,
        ) by {
            if i < n - 1 {
                assert(crest_parts(n)[i] == crest_parts((n - 1) as nat)[i]);
            }
        }
    }
}

#[verifier::opaque]
spec fn panel_head(has_detail1: bool, show_detail2: bool, show_evolve: bool, show_super: bool) -> Seq<
    PanelPart,
> {
    seq![PanelPart::Detail1] + (if show_detail2 {
        seq![PanelPart::Split, PanelPart::Detail2]
    } else {
        seq![]
    }) + (if has_detail1 && (show_evolve || show_super) {
        seq![PanelPart::Split]
    } else {
        seq![]
    })
}

#[verifier::opaque]
spec fn panel_evolve(show_evolve: bool, show_super: bool) -> Seq<PanelPart> {
    (if show_evolve {
        seq![PanelPart::Evolve]
    } else {
        seq![]
    }) + (if show_super {
        seq![PanelPart::SuperEvolve]
    } else {
        seq![]
    })
}

#[verifier::opaque]
spec fn panel_tail(n_crests: nat, show_legacy_crest: bool) -> Seq<PanelPart> {
    if n_crests > 0 {
        crest_parts(n_crests)
    } else if show_legacy_crest {
        seq![PanelPart::LegacyCrest]
    } else {
        seq![]
    }
}

proof fn lemma_panel_pieces(
    has_detail1: bool,
    show_detail2: bool,
    show_evolve: bool,
    show_super: bool,
    n_crests: nat,
    show_legacy_crest: bool,
)
    ensures
        panel_parts(has_detail1, show_detail2, show_evolve, show_super, n_crests, show_legacy_crest)
            == panel_head(has_detail1, show_detail2, show_evolve, show_super) + panel_evolve(
            show_evolve,
            show_super,
        ) + panel_tail(n_crests, show_legacy_crest),
{
    reveal(panel_head);
    reveal(panel_evolve);
    reveal(panel_tail);
    assert(panel_parts(has_detail1, show_detail2, show_evolve, show_super, n_crests, show_legacy_crest)
        =~= panel_head(has_detail1, show_detail2, show_evolve, show_super) + panel_evolve(
        show_evolve,
        show_super,
    ) + panel_tail(n_crests, show_legacy_crest));
}

proof fn lemma_panel_head(has_detail1: bool, show_detail2: bool, show_evolve: bool, show_super: bool)
    ensures
        ({
            let h = panel_head(has_detail1, show_detail2, show_evolve, show_super);
            &&& h.len() > 0 && h[0] == PanelPart::Detail1
            &&& forall|k: int|
                0 <= k < h.len() ==> !(#[trigger] h[k] is Crest) && h[k] != PanelPart::LegacyCrest
                    && h[k] != PanelPart::Evolve && h[k] != PanelPart::SuperEvolve
            &&& show_detail2 ==> h.len() > 2 && h[2] == PanelPart::Detail2
            &&& !show_detail2 ==> forall|k: int| 0 <= k < h.len() ==> #[trigger] h[k] != PanelPart::Detail2
        }),
{
    reveal(panel_head);
}

proof fn lemma_panel_evolve(show_evolve: bool, show_super: bool)
    ensures
        ({
            let e = panel_evolve(show_evolve, show_super);
            &&& forall|k: int|
                0 <= k < e.len() ==> !(#[trigger] e[k] is Crest) && e[k] != PanelPart::LegacyCrest
                    && e[k] != PanelPart::Detail2
            &&& show_evolve ==> e.len() > 0 && e[0] == PanelPart::Evolve
            &&& !show_evolve ==> forall|k: int| 0 <= k < e.len() ==> #[trigger] e[k] != PanelPart::Evolve
            &&& show_super ==> e.len() > 0 && e[e.len() - 1] == PanelPart::SuperEvolve
            &&& !show_super ==> forall|k: int|
                0 <= k < e.len() ==> #[trigger] e[k] != PanelPart::SuperEvolve
            &&& show_evolve && show_super ==> e.len() == 2
        }),
{
    reveal(panel_evolve);
}

proof fn lemma_panel_tail(n_crests: nat, show_legacy_crest: bool)
    ensures
        ({
            let t = panel_tail(n_crests, show_legacy_crest);
            &&& forall|k: int|
                0 <= k < t.len() ==> #[trigger] t[k] != PanelPart::Detail2 && t[k] != PanelPart::Evolve
                    && t[k] != PanelPart::SuperEvolve
            &&& n_crests > 0 ==> t.len() == n_crests && forall|i: int|
                0 <= i < n_crests ==> #[trigger] t[i] == PanelPart::Crest(i as usize)
            &&& n_crests == 0 && show_legacy_crest ==> t == seq![PanelPart::LegacyCrest]
            &&& n_crests == 0 && !show_legacy_crest ==> t.len() == 0
        }),
{
    reveal(panel_tail);
    lemma_crest_parts(n_crests);
}

/// The panel always starts with the main text and ends with the crest blocks
/// in their order (or, when there are none, with the legacy crest exactly when
/// it shows), and no crest block stands before another section; the second
/// text, the evolve and the super-evolve sections are there exactly when they
/// are switched on, and super evolve comes right after evolve.
pub proof fn law_panel_order(
    has_detail1: bool,
    show_detail2: bool,
    show_evolve: bool,
    show_super: bool,
    n_crests: nat,
    show_legacy_crest: bool,
)
    ensures
        ({
            let p = panel_parts(
                has_detail1,
                show_detail2,
                show_evolve,
                show_super,
                n_crests,
                show_legacy_crest,
            );
            &&& p.len() > 0 && p[0] == PanelPart::Detail1
            &&& p.len() >= n_crests
            &&& forall|i: int|
                0 <= i < n_crests ==> #[trigger] p[p.len() - n_crests + i] == PanelPart::Crest(
                    i as usize,
                )
            &&& forall|i: int| 0 <= i < p.len() - n_crests ==> !(#[trigger] p[i] is Crest)
            &&& n_crests > 0 ==> !p.contains(PanelPart::LegacyCrest)
            &&& n_crests == 0 ==> (p.last() == PanelPart::LegacyCrest <==> show_legacy_crest)
            &&& p.contains(PanelPart::Detail2) <==> show_detail2
            &&& p.contains(PanelPart::Evolve) <==> show_evolve
            &&& p.contains(PanelPart::SuperEvolve) <==> show_super
            &&& show_evolve && show_super ==> exists|i: int|
                0 <= i < p.len() - 1 && #[trigger] p[i] == PanelPart::Evolve && p[i + 1]
                    == PanelPart::SuperEvolve
        }),
{
    let p = panel_parts(has_detail1, show_detail2, show_evolve, show_super, n_crests, show_legacy_crest);
    let h = panel_head(has_detail1, show_detail2, show_evolve, show_super);
    let e = panel_evolve(show_evolve, show_super);
    let t = panel_tail(n_crests, show_legacy_crest);
    lemma_panel_pieces(has_detail1, show_detail2, show_evolve, show_super, n_crests, show_legacy_crest);
    lemma_panel_head(has_detail1, show_detail2, show_evolve, show_super);
    lemma_panel_evolve(show_evolve, show_super);
    lemma_panel_tail(n_crests, show_legacy_crest);
    let hl = h.len() as int;
    let el = e.len() as int;
    assert(p == h + e + t);
    assert forall|k: int| 0 <= k < p.len() implies #[trigger] p[k] == if k < hl {
        h[k]
    } else if k < hl + el {
        e[k - hl]
    } else {
        t[k - hl - el]
    } by {}
    assert(p.len() >= n_crests) by {
        if n_crests > 0 {
            assert(t.len() == n_crests);
        }
    }
    assert forall|i: int| 0 <= i < n_crests implies #[trigger] p[p.len() - n_crests + i]
        == PanelPart::Crest(i as usize) by {
        assert(p[p.len() - n_crests + i] == t[i]);
    }
    assert forall|i: int| 0 <= i < p.len() - n_crests implies !(#[trigger] p[i] is Crest) by {
        if i >= hl + el {
            assert(n_crests == 0);
            assert(p[i] == t[i - hl - el]);
        }
    }
    assert(p.contains(PanelPart::Detail2) <==> show_detail2) by {
        if show_detail2 {
            assert(p[2] == PanelPart::Detail2);
        }
        if p.contains(PanelPart::Detail2) {
            let k = choose|k: int| 0 <= k < p.len() && p[k] == PanelPart::Detail2;
            assert(p[k] == PanelPart::Detail2);
        }
    }
    assert(p.contains(PanelPart::Evolve) <==> show_evolve) by {
        if show_evolve {
            assert(p[hl] == PanelPart::Evolve);
        }
        if p.contains(PanelPart::Evolve) {
            let k = choose|k: int| 0 <= k < p.len() && p[k] == PanelPart::Evolve;
            assert(p[k] == PanelPart::Evolve);
        }
    }
    assert(p.contains(PanelPart::SuperEvolve) <==> show_super) by {
        if show_super {
            assert(p[hl + el - 1] == PanelPart::SuperEvolve);
        }
        if p.contains(PanelPart::SuperEvolve) {
            let k = choose|k: int| 0 <= k < p.len() && p[k] == PanelPart::SuperEvolve;
            assert(p[k] == PanelPart::SuperEvolve);
        }
    }
    if show_evolve && show_super {
        assert(p[hl] == PanelPart::Evolve && p[hl + 1] == PanelPart::SuperEvolve);
    }
    if n_crests > 0 {
        assert(!p.contains(PanelPart::LegacyCrest)) by {
            if p.contains(PanelPart::LegacyCrest) {
                let k = choose|k: int| 0 <= k < p.len() && p[k] == PanelPart::LegacyCrest;
                assert(p[k] == PanelPart::LegacyCrest);
            }
        }
    } else if show_legacy_crest {
        assert(p.last() == t[0]);
    } else {
        assert(p.last() == p[p.len() - 1]);
    }
}

/// The order in which the description panel is drawn.
pub fn panel_plan(
    has_detail1: bool,
    show_detail2: bool,
    show_evolve: bool,
    show_super: bool,
    n_crests: usize,
    show_legacy_crest: bool,
) -> (plan: Vec<PanelPart>)
    ensures
        plan@ == panel_parts(
            has_detail1,
            show_detail2,
            show_evolve,
            show_super,
            n_crests as nat,
            show_legacy_crest,
        ),
{
    let mut plan: Vec<PanelPart> = Vec::new();
    plan.push(PanelPart::Detail1);
    if show_detail2 {
        plan.push(PanelPart::Split);
        plan.push(PanelPart::Detail2);
    }
    if has_detail1 && (show_evolve || show_super) {
        plan.push(PanelPart::Split);
    }
    if show_evolve {
        plan.push(PanelPart::Evolve);
    }
    if show_super {
        plan.push(PanelPart::SuperEvolve);
    }
    let ghost head = plan@;
    if n_crests > 0 {
        let mut i: usize = 0;
        assert(crest_parts(0) =~= Seq::<PanelPart>::empty());
        assert(plan@ =~= head + crest_parts(0));
        while i < n_crests
            invariant
                i <= n_crests,
                plan@ == head + crest_parts(i as nat),
            decreases n_crests - i,
        {
            plan.push(PanelPart::Crest(i));
            i += 1;
            assert(plan@ =~= head + crest_parts(i as nat));
        }
    } else if show_legacy_crest {
        plan.push(PanelPart::LegacyCrest);
    }
    assert(plan@ =~= panel_parts(
        has_detail1,
        show_detail2,
        show_evolve,
        show_super,
        n_crests as nat,
        show_legacy_crest,
    ));
    plan
}

/// The illustrator row shows when it is switched on and the name is not blank
/// (the panel texture keeps its divider line only then).
pub fn has_signature(show_illustrator: bool, illustrator: &str) -> (r: bool)
    ensures
        r == (show_illustrator && trim(illustrator@).len() > 0),
{
    show_illustrator && !is_blank(illustrator)
}

/// The illustrator label, `画师:` when none is set.
pub fn illustrator_label(illus_title: &str) -> (r: String)
    ensures
        illus_title@.len() == 0 ==> r@ == "画师:"@,
        illus_title@.len() > 0 ==> r@ == illus_title@,
{
    if illus_title.is_empty() {
        String::from_str("画师:")
    } else {
        String::from_str(illus_title)
    }
}

/// The footnote, always prefixed with `※`, when it is switched on and set.
pub fn footnote(show_diy: bool, diy: &str) -> (r: Option<String>)
    ensures
        r is Some <==> (show_diy && diy@.len() > 0),
        r matches Some(t) ==> t@ == "※"@ + diy@,
{
    if show_diy && !diy.is_empty() {
        let mut t = String::from_str("※");
        t.append(diy);
        Some(t)
    } else {
        None
    }
}

/// The card name of the title band: the name without its spaces.
pub fn title_name(name: &str) -> (r: String)
    ensures
        r@ == name@.filter(|c: char| c != ' '),
{
    let cs = chars_of(name);
    let mut out = String::new();
    let mut i: usize = 0;
    assert(cs@.take(0) =~= Seq::<char>::empty());
    while i < cs.len()
        invariant
            i <= cs@.len(),
            out@ == cs@.take(i as int).filter(|c: char| c != ' '),
        decreases cs@.len() - i,
    {
        let c = cs[i];
        assert(cs@.take(i + 1).drop_last() =~= cs@.take(i as int));
        proof {
            reveal_with_fuel(Seq::<_>::filter, 1);
        }
        if c != ' ' {
            push_char(&mut out, c);
        }
        i += 1;
    }
    assert(cs@.take(cs@.len() as int) =~= cs@);
    out
}

} // verus!
