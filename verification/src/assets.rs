//! The card assets: which keys name an asset, and the file that holds its
//! bytes. The functions named `*_bytes` return that file's path, relative to
//! the asset directory; whoever renders reads (or has bundled) the bytes.

use vstd::prelude::*;
use vstd::string::StringExecFns;
use crate::text::{concat3, push_char, str_eq};

verus! {

/// Every card frame, as `kind_rarity` (also the list the UI offers).
pub const FRAME_KEYS: [&'static str; 18] = [
    "follower_bronze",
    "follower_silver",
    "follower_gold",
    "follower_legend",
    "follower_high_premium",
    "follower_style_101",
    "follower_style_101_no_status",
    "spell_bronze",
    "spell_silver",
    "spell_gold",
    "spell_legend",
    "spell_style_101",
    "spell_style_101_no_status",
    "amulet_bronze",
    "amulet_silver",
    "amulet_gold",
    "amulet_legend",
    "amulet_style_101",
];

/// Class index (0 = neutral .. 7 = portal) to the DIY asset name.
pub const DIY_CLASSES: [&'static str; 8] = [
    "neutral",
    "forestcraft",
    "swordcraft",
    "runecraft",
    "dragoncraft",
    "abysscraft",
    "havencraft",
    "portalcraft",
];

/// Crest band borders, by `CrestBlock::border`.
pub const CREST_BORDERS: [&'static str; 4] = ["Crest", "Faith", "Accelerate", "Crystallize"];

/// Built-in crest icons: cost_0..cost_10 + 2 extra.
pub const CREST_BUILTIN: [&'static str; 13] = [
    "cost_0",
    "cost_1",
    "cost_2",
    "cost_3",
    "cost_4",
    "cost_5",
    "cost_6",
    "cost_7",
    "cost_8",
    "cost_9",
    "cost_10",
    "5d4245b4f4bd3b69d2e891b5e253dc0e",
    "89825586aad57905eec3bc02e2ec141f",
];

/// The DIY effect textures (title band, panels, banners, crest borders).
pub const EFFECT_KEYS: [&'static str; 11] = [
    "title_bg",
    "title_bottom",
    "card_detail_background",
    "detail_spit",
    "evolve",
    "super_evolve",
    "detail_crest",
    "Crest",
    "Faith",
    "Accelerate",
    "Crystallize",
];

/// The characters of each name of a list.
pub open spec fn names(list: Seq<&str>) -> Seq<Seq<char>> {
    list.map_values(|s: &str| s@)
}

pub open spec fn listed(list: Seq<&str>, key: Seq<char>) -> bool {
    names(list).contains(key)
}

pub open spec fn opt_view(o: Option<String>) -> Option<Seq<char>> {
    match o {
        Some(s) => Some(s@),
        None => None,
    }
}

/// The file of `key` in a directory `dir` with extension `ext`, when `key` is
/// one of `list`.
pub open spec fn listed_file(list: Seq<&str>, key: Seq<char>, dir: Seq<char>, ext: Seq<char>) -> Option<
    Seq<char>,
> {
    if listed(list, key) {
        Some(dir + key + ext)
    } else {
        None
    }
}

/// Whether `key` is one of `list`.
pub fn is_listed(list: &[&str], key: &str) -> (r: bool)
    ensures
        r == listed(list@, key@),
{
    let mut i: usize = 0;
    while i < list.len()
        invariant
            i <= list@.len(),
            forall|j: int| 0 <= j < i ==> list@[j]@ != key@,
        decreases list@.len() - i,
    {
        if str_eq(list[i], key) {
            assert(names(list@)[i as int] == key@);
            return true;
        }
        i += 1;
    }
    assert(!names(list@).contains(key@)) by {
        if names(list@).contains(key@) {
            let j = choose|j: int| 0 <= j < names(list@).len() && names(list@)[j] == key@;
            assert(list@[j]@ == key@);
        }
    }
    false
}

fn listed_file_of(list: &[&str], key: &str, dir: &str, ext: &str) -> (r: Option<String>)
    ensures
        opt_view(r) == listed_file(list@, key@, dir@, ext@),
{
    if is_listed(list, key) {
        Some(concat3(dir, key, ext))
    } else {
        None
    }
}

pub open spec fn frame_asset(key: Seq<char>) -> Option<Seq<char>> {
    listed_file(FRAME_KEYS@, key, "frames/frame2d_"@, ".png"@)
}

/// The file (relative to the asset directory) that holds the bytes of a
/// frame, or `None` for a key that names no frame.
pub fn frame_bytes(key: &str) -> (r: Option<String>)
    ensures
        opt_view(r) == frame_asset(key@),
{
    listed_file_of(&FRAME_KEYS, key, "frames/frame2d_", ".png")
}

pub open spec fn decimal_digit(d: u8) -> char {
    if d == 0 {
        '0'
    } else if d == 1 {
        '1'
    } else if d == 2 {
        '2'
    } else if d == 3 {
        '3'
    } else if d == 4 {
        '4'
    } else if d == 5 {
        '5'
    } else if d == 6 {
        '6'
    } else if d == 7 {
        '7'
    } else if d == 8 {
        '8'
    } else {
        '9'
    }
}

fn digit_char(d: u8) -> (c: char)
    requires
        d < 10,
    ensures
        c == decimal_digit(d),
{
    if d == 0 {
        '0'
    } else if d == 1 {
        '1'
    } else if d == 2 {
        '2'
    } else if d == 3 {
        '3'
    } else if d == 4 {
        '4'
    } else if d == 5 {
        '5'
    } else if d == 6 {
        '6'
    } else if d == 7 {
        '7'
    } else if d == 8 {
        '8'
    } else {
        '9'
    }
}

pub open spec fn icon_asset(class: u8) -> Option<Seq<char>> {
    if class < 8 {
        Some("icons/card2d_class_icon_"@ + seq![decimal_digit(class)] + ".png"@)
    } else {
        None
    }
}

/// The file that holds the class icon of a class index (0 = neutral ..
/// 7 = portal), or `None` past the last class.
pub fn icon_bytes(class: u8) -> (r: Option<String>)
    ensures
        opt_view(r) == icon_asset(class),
{
    if class < 8 {
        let mut s = String::from_str("icons/card2d_class_icon_");
        push_char(&mut s, digit_char(class));
        s.append(".png");
        Some(s)
    } else {
        None
    }
}

pub open spec fn diy_background_asset(cls: Seq<char>, gen: u8) -> Option<Seq<char>> {
    if listed(DIY_CLASSES@, cls) && (gen == 1 || gen == 2) {
        Some("diy/backgrounds/"@ + cls + seq!['-', decimal_digit(gen)] + ".jpg"@)
    } else {
        None
    }
}

/// The file that holds the DIY background of a class in one of the two
/// generations (1 = OG, 2 = byd), or `None`.
pub fn diy_background_bytes(cls: &str, gen: u8) -> (r: Option<String>)
    ensures
        opt_view(r) == diy_background_asset(cls@, gen),
{
    if is_listed(&DIY_CLASSES, cls) && (gen == 1 || gen == 2) {
        let mut s = String::from_str("diy/backgrounds/");
        s.append(cls);
        push_char(&mut s, '-');
        push_char(&mut s, digit_char(gen));
        s.append(".jpg");
        assert(s@ =~= "diy/backgrounds/"@ + cls@ + seq!['-', decimal_digit(gen)] + ".jpg"@);
        Some(s)
    } else {
        None
    }
}

pub open spec fn diy_title_class_asset(cls: Seq<char>) -> Option<Seq<char>> {
    listed_file(DIY_CLASSES@, cls, "diy/title_class/"@, ".png"@)
}

/// The file that holds the class icon of the DIY title band, or `None`.
pub fn diy_title_class_bytes(cls: &str) -> (r: Option<String>)
    ensures
        opt_view(r) == diy_title_class_asset(cls@),
{
    listed_file_of(&DIY_CLASSES, cls, "diy/title_class/", ".png")
}

pub open spec fn diy_effect_asset(key: Seq<char>) -> Option<Seq<char>> {
    listed_file(EFFECT_KEYS@, key, "diy/effect/"@, ".png"@)
}

/// The file that holds a DIY effect texture, or `None`.
pub fn diy_effect_bytes(key: &str) -> (r: Option<String>)
    ensures
        opt_view(r) == diy_effect_asset(key@),
{
    listed_file_of(&EFFECT_KEYS, key, "diy/effect/", ".png")
}

pub open spec fn diy_crest_asset(name: Seq<char>) -> Option<Seq<char>> {
    listed_file(CREST_BUILTIN@, name, "diy/crests/"@, ".png"@)
}

/// The file that holds a built-in crest icon, or `None`.
pub fn diy_crest_bytes(name: &str) -> (r: Option<String>)
    ensures
        opt_view(r) == diy_crest_asset(name@),
{
    listed_file_of(&CREST_BUILTIN, name, "diy/crests/", ".png")
}

/// The DIY asset name of a class index.
pub fn diy_class_name(class: u8) -> (r: Option<&'static str>)
    ensures
        class < 8 ==> r == Some(DIY_CLASSES[class as int]),
        class >= 8 ==> r is None,
{
    if class < 8 {
        Some(DIY_CLASSES[class as usize])
    } else {
        None
    }
}

/// The border texture of a crest band; an unknown border falls back to `Crest`.
pub fn crest_border_key(border: u8) -> (r: &'static str)
    ensures
        border < 4 ==> r == CREST_BORDERS[border as int],
        border >= 4 ==> r == CREST_BORDERS[0],
{
    if border < 4 {
        CREST_BORDERS[border as usize]
    } else {
        CREST_BORDERS[0]
    }
}

/// Every key of the frame list has a frame asset, and only those keys have one.
pub proof fn law_frame_list_matches_assets(key: Seq<char>)
    ensures
        frame_asset(key) is Some <==> names(FRAME_KEYS@).contains(key),
        forall|i: int| 0 <= i < 18 ==> #[trigger] frame_asset(FRAME_KEYS@[i]@) is Some,
{
    assert forall|i: int| 0 <= i < 18 implies #[trigger] frame_asset(FRAME_KEYS@[i]@) is Some by {
        assert(names(FRAME_KEYS@)[i] == FRAME_KEYS@[i]@);
    }
}

/// Every DIY class has both background generations and a title-band icon,
/// every effect key and every built-in crest has its texture, and every crest
/// border is one of the effect textures.
pub proof fn law_diy_assets_complete()
    ensures
        forall|i: int, gen: u8|
            0 <= i < 8 && (gen == 1 || gen == 2) ==> #[trigger] diy_background_asset(
                DIY_CLASSES@[i]@,
                gen,
            ) is Some,
        forall|i: int| 0 <= i < 8 ==> #[trigger] diy_title_class_asset(DIY_CLASSES@[i]@) is Some,
        forall|i: int| 0 <= i < 11 ==> #[trigger] diy_effect_asset(EFFECT_KEYS@[i]@) is Some,
        forall|i: int| 0 <= i < 13 ==> #[trigger] diy_crest_asset(CREST_BUILTIN@[i]@) is Some,
        forall|i: int| 0 <= i < 4 ==> #[trigger] diy_effect_asset(CREST_BORDERS@[i]@) is Some,
{
    assert forall|i: int| 0 <= i < 8 implies #[trigger] listed(DIY_CLASSES@, DIY_CLASSES@[i]@) by {
        assert(names(DIY_CLASSES@)[i] == DIY_CLASSES@[i]@);
    }
    assert forall|i: int| 0 <= i < 11 implies #[trigger] listed(EFFECT_KEYS@, EFFECT_KEYS@[i]@) by {
        assert(names(EFFECT_KEYS@)[i] == EFFECT_KEYS@[i]@);
    }
    assert forall|i: int| 0 <= i < 13 implies #[trigger] listed(CREST_BUILTIN@, CREST_BUILTIN@[i]@) by {
        assert(names(CREST_BUILTIN@)[i] == CREST_BUILTIN@[i]@);
    }
    assert forall|i: int| 0 <= i < 4 implies #[trigger] listed(EFFECT_KEYS@, CREST_BORDERS@[i]@) by {
        assert(CREST_BORDERS@[i] == EFFECT_KEYS@[i + 7]);
        assert(names(EFFECT_KEYS@)[i + 7] == EFFECT_KEYS@[i + 7]@);
    }
}


#[verifier::external_type_specification]
#[verifier::external_body]
pub struct ExJsonError(serde_json::Error);

/// A string JSON writes with no escape: no double quote, no backslash and no
/// control character.
pub open spec fn json_plain(s: Seq<char>) -> bool {
    forall|i: int| 0 <= i < s.len() ==> s[i] != '"' && s[i] != '\\' && '\u{20}' <= #[trigger] s[i]
}

/// The frame keys are pairwise distinct, and each is written into JSON as it
/// is (no character of theirs needs an escape).
pub proof fn law_frame_keys_distinct()
    ensures
        forall|i: int| 0 <= i < 18 ==> json_plain(#[trigger] FRAME_KEYS@[i]@),
        forall|i: int, j: int| 0 <= i < j < 18 ==> FRAME_KEYS@[i]@ != FRAME_KEYS@[j]@,
{
    reveal_strlit("follower_bronze");
    reveal_strlit("follower_silver");
    reveal_strlit("follower_gold");
    reveal_strlit("follower_legend");
    reveal_strlit("follower_high_premium");
    reveal_strlit("follower_style_101");
    reveal_strlit("follower_style_101_no_status");
    reveal_strlit("spell_bronze");
    reveal_strlit("spell_silver");
    reveal_strlit("spell_gold");
    reveal_strlit("spell_legend");
    reveal_strlit("spell_style_101");
    reveal_strlit("spell_style_101_no_status");
    reveal_strlit("amulet_bronze");
    reveal_strlit("amulet_silver");
    reveal_strlit("amulet_gold");
    reveal_strlit("amulet_legend");
    reveal_strlit("amulet_style_101");
    assert forall|i: int, j: int| 0 <= i < j < 18 implies FRAME_KEYS@[i]@ != FRAME_KEYS@[j]@ by {
        let a = FRAME_KEYS@[i]@;
        let b = FRAME_KEYS@[j]@;
        assert(a.len() != b.len() || a[0] != b[0] || a[8] != b[8] || a[9] != b[9]);
    }
}

pub open spec fn json_quoted(s: Seq<char>) -> Seq<char> {
    seq!['"'] + s + seq!['"']
}

pub open spec fn json_plain_items(items: Seq<Seq<char>>) -> Seq<char>
    decreases items.len(),
{
    if items.len() == 0 {
        seq![]
    } else if items.len() == 1 {
        json_quoted(items[0])
    } else {
        json_plain_items(items.drop_last()) + seq![','] + json_quoted(items.last())
    }
}

/// Compact JSON of a list of strings none of which needs an escape: each in
/// double quotes, separated by commas, between brackets.
pub open spec fn json_plain_array(items: Seq<Seq<char>>) -> Seq<char> {
    seq!['['] + json_plain_items(items) + seq![']']
}

/// The compact JSON text of an array of strings, as `serde_json` writes it.
pub uninterp spec fn json_string_array(items: Seq<Seq<char>>) -> Seq<char>;

/// `serde_json::to_string` on a slice of strings. The text is named by
/// `json_string_array`; the result is always `Ok`, since strings are written
/// into an in-memory buffer and that write cannot fail. When no string holds
/// a character that needs an escape, the compact writer puts out `[`, each
/// string in double quotes with `,` between them, and `]`; the escapes that
/// other strings get are left unstated.
#[verifier::external_body]
fn json_of_strings(items: &[&str]) -> (r: Result<String, serde_json::Error>)
    ensures
        r is Ok,
        r matches Ok(s) ==> s@ == json_string_array(names(items@)),
        r matches Ok(s) ==> ((forall|i: int| 0 <= i < items@.len() ==> json_plain(#[trigger] items@[i]@))
            ==> s@ == json_plain_array(names(items@))),
{
    serde_json::to_string(items)
}

/// All available frame keys as a JSON array, for building the UI selector.
pub fn list_frames() -> (r: String)
    ensures
        r@ == json_string_array(names(FRAME_KEYS@)),
        r@ == json_plain_array(names(FRAME_KEYS@)),
{
    proof {
        law_frame_keys_distinct();
    }
    match json_of_strings(&FRAME_KEYS) {
        Ok(s) => s,
        Err(_) => String::from_str("[]"),
    }
}


/// The decimal digit written for a value below ten is the character whose
/// code is `'0'` plus that value.
pub proof fn law_decimal_digit_value(d: u8)
    requires
        d < 10,
    ensures
        decimal_digit(d) as int == '0' as int + d,
{
}

/// Class `c` (below 8) has the icon file `icons/card2d_class_icon_<c>.png`:
/// the one digit in its name has the value `c`, so each class has its own
/// icon, and no class past the last has one.
pub proof fn law_icon_file_names_class(c: u8)
    ensures
        c < 8 ==> (icon_asset(c) matches Some(p) && p.len() == 29
            && p.take(24) == "icons/card2d_class_icon_"@ && p[24] as int - '0' as int == c
            && p.skip(25) == ".png"@),
        c >= 8 ==> icon_asset(c) is None,
        forall|c1: u8, c2: u8|
            c1 < 8 && c2 < 8 && c1 != c2 ==> #[trigger] icon_asset(c1) != #[trigger] icon_asset(c2),
{
    reveal_strlit("icons/card2d_class_icon_");
    reveal_strlit(".png");
    if c < 8 {
        let p = icon_asset(c)->0;
        assert(p.take(24) =~= "icons/card2d_class_icon_"@);
        assert(p.skip(25) =~= ".png"@);
    }
    assert forall|c1: u8, c2: u8|
        c1 < 8 && c2 < 8 && c1 != c2 implies #[trigger] icon_asset(c1) != #[trigger] icon_asset(c2) by {
        assert(icon_asset(c1)->0[24] != icon_asset(c2)->0[24]);
    }
}


/// Where each listed asset lives: frames at `frames/frame2d_<key>.png`, DIY
/// backgrounds at `diy/backgrounds/<class>-<1|2>.jpg`, title-band icons at
/// `diy/title_class/<class>.png`, effects at `diy/effect/<key>.png` and
/// built-in crests at `diy/crests/<name>.png`; an unlisted name has none.
pub proof fn law_asset_files(key: Seq<char>, gen: u8)
    ensures
        frame_asset(key) == if names(FRAME_KEYS@).contains(key) {
            Some("frames/frame2d_"@ + key + ".png"@)
        } else {
            None
        },
        diy_title_class_asset(key) == if names(DIY_CLASSES@).contains(key) {
            Some("diy/title_class/"@ + key + ".png"@)
        } else {
            None
        },
        diy_effect_asset(key) == if names(EFFECT_KEYS@).contains(key) {
            Some("diy/effect/"@ + key + ".png"@)
        } else {
            None
        },
        diy_crest_asset(key) == if names(CREST_BUILTIN@).contains(key) {
            Some("diy/crests/"@ + key + ".png"@)
        } else {
            None
        },
        names(DIY_CLASSES@).contains(key) && gen == 1 ==> diy_background_asset(key, gen) == Some(
            "diy/backgrounds/"@ + key + seq!['-', '1'] + ".jpg"@,
        ),
        names(DIY_CLASSES@).contains(key) && gen == 2 ==> diy_background_asset(key, gen) == Some(
            "diy/backgrounds/"@ + key + seq!['-', '2'] + ".jpg"@,
        ),
        !(names(DIY_CLASSES@).contains(key) && (gen == 1 || gen == 2)) ==> diy_background_asset(
            key,
            gen,
        ) is None,
{
}

} // verus!
