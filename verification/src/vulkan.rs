// Which GPU the shell must present on, read from sysfs names, ICD files and the devices Vulkan lists.
use crate::env::{chosen, edit_view, is_chosen, opt_str_view, remove, EditView, EnvEdit};
use crate::text::{chars_of, contains, push_str, range_eq, starts_with, string_of_range, trim, trim_range, trim_start};
use vstd::prelude::*;

verus! {

// PCI vendor ids, the values /sys/class/drm/card*/device/vendor carries.
pub const PCI_VENDOR_NVIDIA: u32 = 0x10de;

pub const PCI_VENDOR_INTEL: u32 = 0x8086;

pub const PCI_VENDOR_AMD: u32 = 0x1002;

pub const PCI_VENDOR_VIRTIO: u32 = 0x1af4;

/// VK_KHR_surface plus one platform surface extension, the pair Qt's Vulkan RHI presents through.
pub const SURFACE: &'static str = "VK_KHR_surface";

pub const WAYLAND_SURFACE: &'static str = "VK_KHR_wayland_surface";

pub const XCB_SURFACE: &'static str = "VK_KHR_xcb_surface";

/// The launcher marks its own pin, so a program Flea starts can tell it from the operator's own list.
pub const PIN_MARKER: &'static str = "FLEA_VK_PIN";

pub const DRIVER_FILES: &'static str = "VK_DRIVER_FILES";

pub const ICD_FILENAMES: &'static str = "VK_ICD_FILENAMES";

/// Only WAYLAND_DISPLAY is read, so a Wayland session wins on a box that has both set.
/// Sample input: Some("wayland-1"), and None or Some("") for a session that is not Wayland.
pub fn surface_for(wayland_display: Option<&str>) -> (r: &'static str)
    ensures
        r == (if chosen(opt_str_view(wayland_display)) {
            WAYLAND_SURFACE
        } else {
            XCB_SURFACE
        }),
{
    if is_chosen(wayland_display) {
        WAYLAND_SURFACE
    } else {
        XCB_SURFACE
    }
}

/// Empty is absent, the same rule QSG_RHI_BACKEND and the loader variables already follow.
pub fn pin_is_marked(marker: Option<&str>) -> (r: bool)
    ensures
        r == chosen(opt_str_view(marker)),
{
    is_chosen(marker)
}

/// Undo this launcher's pin for a child, leaving an operator's own VK_DRIVER_FILES untouched.
pub fn drop_display_pin(marker: Option<&str>) -> (r: Vec<EnvEdit>)
    ensures
        !chosen(opt_str_view(marker)) ==> r@.len() == 0,
        chosen(opt_str_view(marker)) ==> r@.len() == 3 && edit_view(r@[0]) == EditView::Remove(
            DRIVER_FILES@,
        ) && edit_view(r@[1]) == EditView::Remove(ICD_FILENAMES@) && edit_view(r@[2])
            == EditView::Remove(PIN_MARKER@),
{
    let mut r: Vec<EnvEdit> = Vec::new();
    if !pin_is_marked(marker) {
        return r;
    }
    r.push(remove(DRIVER_FILES));
    r.push(remove(ICD_FILENAMES));
    r.push(remove(PIN_MARKER));
    r
}

/// What the launcher should do about this box's GPUs, so the launcher can say it in one sentence.
#[derive(Debug)]
pub enum DisplayPin {
    NotNeeded,
    Unmatched { vendor: u32 },
    Pin { icd: String, gpu: (u32, u32) },
}

/// A rival GPU: a real card of another vendor than every display, which an ICD list can leave out.
pub open spec fn is_rival(id: (u32, u32), displays: Seq<(u32, u32)>, cards: Seq<(u32, u32)>) -> bool {
    &&& !displays.contains(id)
    &&& cards.contains(id)
    &&& !(exists|j: int| 0 <= j < displays.len() && (#[trigger] displays[j]).0 == id.0)
}

/// Vulkan lists the display GPU and a rival beside it.
pub open spec fn pin_needed(devices: Seq<(u32, u32)>, displays: Seq<(u32, u32)>, cards: Seq<(u32, u32)>) -> bool {
    &&& displays.len() > 0
    &&& devices.len() > 0
    &&& exists|i: int| 0 <= i < devices.len() && displays.contains(#[trigger] devices[i])
    &&& exists|i: int| 0 <= i < devices.len() && is_rival(#[trigger] devices[i], displays, cards)
}

fn has_id(ids: &[(u32, u32)], id: (u32, u32)) -> (r: bool)
    ensures
        r == ids@.contains(id),
{
    let mut i: usize = 0;
    while i < ids.len()
        invariant
            0 <= i <= ids.len(),
            forall|j: int| 0 <= j < i ==> ids@[j] != id,
        decreases ids.len() - i,
    {
        if ids[i].0 == id.0 && ids[i].1 == id.1 {
            assert(ids@[i as int] == id);
            return true;
        }
        i = i + 1;
    }
    false
}

fn has_vendor(ids: &[(u32, u32)], vendor: u32) -> (r: bool)
    ensures
        r == exists|j: int| 0 <= j < ids@.len() && (#[trigger] ids@[j]).0 == vendor,
{
    let mut i: usize = 0;
    while i < ids.len()
        invariant
            0 <= i <= ids.len(),
            forall|j: int| 0 <= j < i ==> (#[trigger] ids@[j]).0 != vendor,
        decreases ids.len() - i,
    {
        if ids[i].0 == vendor {
            assert(ids@[i as int].0 == vendor);
            return true;
        }
        i = i + 1;
    }
    false
}

/// Sample input: devices [(0x8086, 0xa788), (0x10de, 0x27e0)] and displays [(0x10de, 0x27e0)].
pub fn needs_icd_pin(devices: &[(u32, u32)], displays: &[(u32, u32)], cards: &[(u32, u32)]) -> (r: bool)
    ensures
        r == pin_needed(devices@, displays@, cards@),
{
    if displays.len() == 0 || devices.len() == 0 {
        return false;
    }
    let mut has_display = false;
    let mut excludable = false;
    let mut i: usize = 0;
    while i < devices.len()
        invariant
            0 <= i <= devices.len(),
            has_display == exists|j: int| 0 <= j < i && displays@.contains(#[trigger] devices@[j]),
            excludable == exists|j: int| 0 <= j < i && is_rival(#[trigger] devices@[j], displays@, cards@),
        decreases devices.len() - i,
    {
        let id = devices[i];
        if has_id(displays, id) {
            has_display = true;
        }
        // A rival must be a real card and a different vendor: a software ICD owns no card, and an ICD list is vendor granular.
        if !has_id(displays, id) && has_id(cards, id) && !has_vendor(displays, id.0) {
            excludable = true;
        }
        assert(devices@[i as int] == id);
        i = i + 1;
    }
    has_display && excludable
}

/// The first device that drives a display.
pub open spec fn first_display(devices: Seq<(u32, u32)>, displays: Seq<(u32, u32)>) -> Option<(u32, u32)>
    decreases devices.len(),
{
    if devices.len() == 0 {
        None
    } else if displays.contains(devices[0]) {
        Some(devices[0])
    } else {
        first_display(devices.drop_first(), displays)
    }
}

/// The text after the first `"library_path"` key, up to the closing quote of its string value.
pub open spec fn library_of(body: Seq<char>) -> Option<Seq<char>> {
    let key = "\"library_path\""@;
    if !contains(body, key) {
        None
    } else {
        let at = first_match(body, key);
        let after = trim_start(body.skip(at + key.len()));
        if after.len() > 0 && after[0] == ':' {
            let v = trim_start(after.skip(1));
            if v.len() > 0 && v[0] == '"' {
                let inner = v.skip(1);
                let end = crate::keyfile::first_of(inner, '"');
                if end < inner.len() {
                    Some(inner.take(end as int))
                } else {
                    None
                }
            } else {
                None
            }
        } else {
            None
        }
    }
}

/// The index of the first occurrence of `p` in `s`.
pub open spec fn first_match(s: Seq<char>, p: Seq<char>) -> int {
    choose|i: int|
        #![trigger s.subrange(i, i + p.len())]
        0 <= i <= s.len() - p.len() && s.subrange(i, i + p.len()) == p && forall|j: int|
            0 <= j < i ==> #[trigger] s.subrange(j, j + p.len()) != p
}

/// Where `p` first occurs in `v`, when it does.
pub fn find_str(v: &Vec<char>, p: &Vec<char>) -> (r: Option<usize>)
    ensures
        match r {
            Some(i) => contains(v@, p@) && i == first_match(v@, p@) && i + p.len() <= v.len(),
            None => !contains(v@, p@),
        },
{
    if p.len() > v.len() {
        return None;
    }
    if p.len() == 0 {
        assert(v@.subrange(0int, 0int + p@.len()) =~= p@);
        assert(contains(v@, p@));
        let ghost w = first_match(v@, p@);
        assert(v@.subrange(w, w + p@.len()) == p@);
        assert(w == 0) by {
            if w > 0 {
                assert(v@.subrange(0int, 0int + p@.len()) != p@);
            }
        }
        return Some(0);
    }
    let mut i: usize = 0;
    while i <= v.len() - p.len()
        invariant
            0 < p.len() <= v.len(),
            i <= v.len() - p.len() + 1,
            forall|j: int| 0 <= j < i ==> #[trigger] v@.subrange(j, j + p.len()) != p@,
        decreases v.len() - p.len() + 1 - i,
    {
        if crate::text::has_at(v, i, v.len(), p) {
            assert(v@.subrange(i as int, v.len() as int).take(p.len() as int) =~= v@.subrange(
                i as int,
                i + p.len(),
            ));
            assert(v@.subrange(i as int, i + p.len()) == p@);
            assert(contains(v@, p@));
            let ghost w = first_match(v@, p@);
            proof {
                if w != i {
                    if w < i {
                        assert(v@.subrange(w, w + p.len()) != p@);
                    } else {
                        assert(v@.subrange(i as int, i + p.len()) == p@);
                    }
                }
            }
            return Some(i);
        }
        assert(v@.subrange(i as int, v.len() as int).take(p.len() as int) =~= v@.subrange(
            i as int,
            i + p.len(),
        ));
        i = i + 1;
    }
    None
}

/// Sample input: the packaged nvidia_icd.json, whose library_path is libGLX_nvidia.so.0.
pub fn icd_library(body: &str) -> (r: Option<String>)
    ensures
        crate::chooser::opt_view(r) == library_of(body@),
{
    let v = chars_of(body);
    let key = chars_of("\"library_path\"");
    let n = v.len();
    let at = match find_str(&v, &key) {
        Some(at) => at,
        None => return None,
    };
    let a = crate::text::skip_ws(&v, at + key.len(), n);
    assert(v@.skip(at + key.len()) =~= v@.subrange(at + key.len(), n as int));
    if a >= n || v[a] != ':' {
        return None;
    }
    let ghost after = v@.subrange(a as int, n as int);
    assert(after.skip(1) =~= v@.subrange(a + 1, n as int));
    let b = crate::text::skip_ws(&v, a + 1, n);
    if b >= n || v[b] != '"' {
        return None;
    }
    let ghost vv = v@.subrange(b as int, n as int);
    assert(vv.skip(1) =~= v@.subrange(b + 1, n as int));
    let end = crate::text::find_char(&v, b + 1, n, '"');
    proof {
        let inner = v@.subrange(b + 1, n as int);
        assert forall|q: int| 0 <= q < end - (b + 1) implies inner[q] != '"' by {
            assert(inner[q] == v@[b + 1 + q]);
        }
        crate::keyfile::lemma_first_of(inner, '"', end - (b + 1));
        assert(inner.take(end - (b + 1)) =~= v@.subrange(b + 1, end as int));
    }
    if end == n {
        return None;
    }
    Some(string_of_range(&v, b + 1, end))
}

pub open spec fn lower(c: char) -> char {
    if 'A' <= c <= 'Z' {
        ((c as u32) + 32) as char
    } else {
        c
    }
}

/// The text as `str::to_ascii_lowercase` leaves it.
pub open spec fn lowered(s: Seq<char>) -> Seq<char> {
    s.map_values(|c: char| lower(c))
}

/// The PCI vendor a Vulkan ICD library serves, read from its file name.
pub open spec fn library_vendor(lib: Seq<char>) -> Option<u32> {
    let l = lowered(lib);
    if contains(l, "hasvk"@) {
        None
    } else if contains(l, "nvidia"@) || contains(l, "nouveau"@) {
        Some(PCI_VENDOR_NVIDIA)
    } else if contains(l, "intel"@) {
        Some(PCI_VENDOR_INTEL)
    } else if contains(l, "radeon"@) || contains(l, "amdvlk"@) || contains(l, "amd_"@) {
        Some(PCI_VENDOR_AMD)
    } else if contains(l, "virtio"@) {
        Some(PCI_VENDOR_VIRTIO)
    } else {
        None
    }
}

fn lowered_chars(s: &str) -> (v: Vec<char>)
    ensures
        v@ == lowered(s@),
{
    let c = chars_of(s);
    let mut v: Vec<char> = Vec::new();
    let mut i: usize = 0;
    while i < c.len()
        invariant
            0 <= i <= c.len(),
            v@ == lowered(c@.take(i as int)),
        decreases c.len() - i,
    {
        let ch = c[i];
        let l = if 'A' <= ch && ch <= 'Z' {
            char_from_u32((ch as u32) + 32)
        } else {
            ch
        };
        v.push(l);
        assert(lowered(c@.take(i + 1)) =~= lowered(c@.take(i as int)).push(lower(c@[i as int])));
        i = i + 1;
    }
    assert(c@.take(c.len() as int) =~= c@);
    v
}

/// An ASCII upper-case letter moved to its lower-case one.
fn char_from_u32(u: u32) -> (c: char)
    requires
        97 <= u <= 122,
    ensures
        c == u as char,
{
    let mut c: char = 'a';
    let mut k: u32 = 97;
    while k < u
        invariant
            97 <= k <= u <= 122,
            c as u32 == k,
        decreases u - k,
    {
        c = next_letter(c);
        k = k + 1;
    }
    c
}

fn next_letter(c: char) -> (r: char)
    requires
        'a' <= c < 'z',
    ensures
        r as u32 == c as u32 + 1,
{
    match c {
        'a' => 'b',
        'b' => 'c',
        'c' => 'd',
        'd' => 'e',
        'e' => 'f',
        'f' => 'g',
        'g' => 'h',
        'h' => 'i',
        'i' => 'j',
        'j' => 'k',
        'k' => 'l',
        'l' => 'm',
        'm' => 'n',
        'n' => 'o',
        'o' => 'p',
        'p' => 'q',
        'q' => 'r',
        'r' => 's',
        's' => 't',
        't' => 'u',
        'u' => 'v',
        'v' => 'w',
        'w' => 'x',
        'x' => 'y',
        _ => 'z',
    }
}

fn contains_str(v: &Vec<char>, p: &str) -> (r: bool)
    ensures
        r == contains(v@, p@),
{
    let pv = chars_of(p);
    find_str(v, &pv).is_some()
}

/// Sample input: "libGLX_nvidia.so.0", "libvulkan_intel.so", "libvulkan_intel_hasvk.so".
pub fn vendor_of_library(lib: &str) -> (r: Option<u32>)
    ensures
        r == library_vendor(lib@),
{
    let l = lowered_chars(lib);
    // hasvk is Haswell/Broadwell, not the display GPU beside a modern iGPU ICD.
    if contains_str(&l, "hasvk") {
        return None;
    }
    if contains_str(&l, "nvidia") || contains_str(&l, "nouveau") {
        Some(PCI_VENDOR_NVIDIA)
    } else if contains_str(&l, "intel") {
        Some(PCI_VENDOR_INTEL)
    } else if contains_str(&l, "radeon") || contains_str(&l, "amdvlk") || contains_str(&l, "amd_") {
        Some(PCI_VENDOR_AMD)
    } else if contains_str(&l, "virtio") {
        Some(PCI_VENDOR_VIRTIO)
    } else {
        None
    }
}

/// Whether the library's name, in any case, holds `word`.
pub open spec fn names(lib: Seq<char>, word: Seq<char>) -> bool {
    contains(lowered(lib), word)
}

/// What each driver's library name reads as, in any case: a hasvk library (Haswell and Broadwell) is no
/// display GPU's; nvidia or nouveau is NVIDIA's 0x10de; intel is Intel's 0x8086; radeon, amdvlk or amd_
/// is AMD's 0x1002; virtio is 0x1af4; a name with none of these reads as no vendor. An earlier word in
/// that list wins over a later one.
pub proof fn a_library_reads_as_the_vendor_its_name_carries(lib: Seq<char>)
    ensures
        names(lib, "hasvk"@) ==> library_vendor(lib) is None,
        !names(lib, "hasvk"@) && (names(lib, "nvidia"@) || names(lib, "nouveau"@)) ==> library_vendor(lib)
            == Some(0x10deu32),
        !names(lib, "hasvk"@) && !names(lib, "nvidia"@) && !names(lib, "nouveau"@) && names(lib, "intel"@)
            ==> library_vendor(lib) == Some(0x8086u32),
        !names(lib, "hasvk"@) && !names(lib, "nvidia"@) && !names(lib, "nouveau"@) && !names(lib, "intel"@)
            && (names(lib, "radeon"@) || names(lib, "amdvlk"@) || names(lib, "amd_"@)) ==> library_vendor(lib)
            == Some(0x1002u32),
        !names(lib, "hasvk"@) && !names(lib, "nvidia"@) && !names(lib, "nouveau"@) && !names(lib, "intel"@)
            && !names(lib, "radeon"@) && !names(lib, "amdvlk"@) && !names(lib, "amd_"@) && names(lib, "virtio"@)
            ==> library_vendor(lib) == Some(0x1af4u32),
        !names(lib, "hasvk"@) && !names(lib, "nvidia"@) && !names(lib, "nouveau"@) && !names(lib, "intel"@)
            && !names(lib, "radeon"@) && !names(lib, "amdvlk"@) && !names(lib, "amd_"@) && !names(lib, "virtio"@)
            ==> library_vendor(lib) is None,
{
}

/// The vendor a library name reads as does not depend on its case.
pub proof fn a_library_name_reads_the_same_in_any_case(lib: Seq<char>)
    ensures
        library_vendor(lib) == library_vendor(lowered(lib)),
{
    assert(lowered(lowered(lib)) =~= lowered(lib)) by {
        assert forall|i: int| 0 <= i < lib.len() implies #[trigger] lower(lower(lib[i])) == lower(lib[i]) by {
            let c = lib[i];
            if 'A' <= c <= 'Z' {
                assert(('a' <= lower(c) <= 'z')) by {
                    assert((c as u32) + 32 >= 97);
                }
            }
        }
    }
}

/// "card" followed by at least one digit and nothing else.
pub open spec fn card_name(name: Seq<char>) -> bool {
    &&& starts_with(name, "card"@)
    &&& name.len() > 4
    &&& crate::text::all_digits(name.skip(4))
}

/// Sample input: "card1" is a card, "card1-DP-1" is one of its connectors, "renderD128" is a render node.
pub fn is_card(name: &str) -> (r: bool)
    ensures
        r == card_name(name@),
{
    let v = chars_of(name);
    let card = chars_of("card");
    let n = v.len();
    if !crate::text::has_at(&v, 0, n, &card) {
        assert(v@.subrange(0, n as int) =~= v@);
        return false;
    }
    assert(v@.subrange(0, n as int) =~= v@);
    assert(card@.len() == 4) by {
        reveal_strlit("card");
    }
    assert(v@.skip(4) =~= v@.subrange(4, n as int));
    n > 4 && crate::text::range_all_digits(&v, 4, n)
}

/// The card a connector name belongs to: "card1-DP-1" is card1's.
pub open spec fn connector_of(name: Seq<char>) -> Option<Seq<char>> {
    let dash = crate::keyfile::first_of(name, '-');
    if dash < name.len() && dash + 1 < name.len() && card_name(name.take(dash as int)) {
        Some(name.take(dash as int))
    } else {
        None
    }
}

/// Sample input: "card1-DP-1" is the NVIDIA DP, "card0" is the card itself, "renderD128" is a render node.
pub fn connector_card(name: &str) -> (r: Option<String>)
    ensures
        crate::chooser::opt_view(r) == connector_of(name@),
{
    let v = chars_of(name);
    let n = v.len();
    let dash = crate::text::find_char(&v, 0, n, '-');
    proof {
        assert forall|q: int| 0 <= q < dash implies v@[q] != '-' by {}
        crate::keyfile::lemma_first_of(v@, '-', dash as int);
    }
    if dash == n || dash + 1 == n {
        return None;
    }
    let card = string_of_range(&v, 0, dash);
    assert(v@.subrange(0, dash as int) =~= v@.take(dash as int));
    if is_card(card.as_str()) {
        Some(card)
    } else {
        None
    }
}

pub open spec fn hex_digit(c: char) -> bool {
    ||| '0' <= c <= '9'
    ||| 'a' <= c <= 'f'
    ||| 'A' <= c <= 'F'
}

pub open spec fn hex_val(c: char) -> nat {
    if '0' <= c <= '9' {
        ((c as u32) - ('0' as u32)) as nat
    } else if 'a' <= c <= 'f' {
        ((c as u32) - ('a' as u32) + 10) as nat
    } else {
        ((c as u32) - ('A' as u32) + 10) as nat
    }
}

pub open spec fn hex_value(s: Seq<char>) -> nat
    decreases s.len(),
{
    if s.len() == 0 {
        0
    } else {
        hex_value(s.drop_last()) * 16 + hex_val(s.last())
    }
}

pub open spec fn all_hex(s: Seq<char>) -> bool {
    forall|i: int| 0 <= i < s.len() ==> hex_digit(#[trigger] s[i])
}

/// What `u32::from_str_radix(s, 16)` reads: an optional `+`, then at least one hex digit, within u32.
pub open spec fn radix16(s: Seq<char>) -> Option<u32> {
    let d = if s.len() > 0 && s[0] == '+' {
        s.skip(1)
    } else {
        s
    };
    if d.len() > 0 && all_hex(d) && hex_value(d) <= u32::MAX {
        Some(hex_value(d) as u32)
    } else {
        None
    }
}

/// A sysfs id: trimmed, then "0x" or "0X" dropped when it leads.
pub open spec fn hex_id(raw: Seq<char>) -> Option<u32> {
    let t = trim(raw);
    let hex = if starts_with(t, "0x"@) || starts_with(t, "0X"@) {
        t.skip(2)
    } else {
        t
    };
    radix16(hex)
}

fn parse_hex_range(v: &Vec<char>, lo: usize, hi: usize) -> (r: Option<u32>)
    requires
        lo <= hi <= v.len(),
    ensures
        r == radix16(v@.subrange(lo as int, hi as int)),
{
    let ghost s = v@.subrange(lo as int, hi as int);
    let mut a = lo;
    if lo < hi && v[lo] == '+' {
        a = lo + 1;
        assert(s.skip(1) =~= v@.subrange(a as int, hi as int));
    } else {
        assert(s =~= v@.subrange(a as int, hi as int));
    }
    let ghost d = v@.subrange(a as int, hi as int);
    if a == hi {
        return None;
    }
    let mut acc: u64 = 0;
    let mut k: usize = a;
    while k < hi
        invariant
            a <= k <= hi <= v.len(),
            d == v@.subrange(a as int, hi as int),
            s == v@.subrange(lo as int, hi as int),
            d == (if s.len() > 0 && s[0] == '+' {
                s.skip(1)
            } else {
                s
            }),
            acc == hex_value(v@.subrange(a as int, k as int)),
            acc <= u32::MAX,
            all_hex(v@.subrange(a as int, k as int)),
        decreases hi - k,
    {
        let c = v[k];
        let h: u64 = if '0' <= c && c <= '9' {
            (c as u32 - '0' as u32) as u64
        } else if 'a' <= c && c <= 'f' {
            (c as u32 - 'a' as u32 + 10) as u64
        } else if 'A' <= c && c <= 'F' {
            (c as u32 - 'A' as u32 + 10) as u64
        } else {
            assert(!hex_digit(d[k - a]));
            return None;
        };
        let ghost pre = v@.subrange(a as int, k as int);
        let ghost next = v@.subrange(a as int, k + 1);
        assert(next.drop_last() =~= pre);
        assert(hex_digit(c));
        assert forall|q: int| 0 <= q < next.len() implies hex_digit(#[trigger] next[q]) by {
            if q < pre.len() {
                assert(next[q] == pre[q]);
            }
        }
        assert(d.take(k + 1 - a) =~= next);
        let nv = acc * 16 + h;
        if nv > 4294967295 {
            // the remaining characters may not be hex at all, which refuses too
            return reject_long(v, k + 1, hi, Ghost(d), Ghost(a as int));
        }
        acc = nv;
        k = k + 1;
    }
    Some(acc as u32)
}

/// Past a prefix that already exceeds u32, the id is refused whatever follows.
fn reject_long(v: &Vec<char>, k: usize, hi: usize, Ghost(d): Ghost<Seq<char>>, Ghost(a): Ghost<int>) -> (r: Option<u32>)
    requires
        0 <= a <= k <= hi <= v.len(),
        d == v@.subrange(a, hi as int),
        all_hex(d.take(k - a)) ==> hex_value(d.take(k - a)) > u32::MAX,
        all_hex(d.take(k - a)),
    ensures
        r is None,
        all_hex(d) ==> hex_value(d) > u32::MAX,
{
    proof {
        if all_hex(d) {
            lemma_hex_grows(d, k - a);
        }
    }
    None
}

pub proof fn lemma_hex_grows(s: Seq<char>, k: int)
    requires
        0 <= k <= s.len(),
        all_hex(s),
    ensures
        hex_value(s.take(k)) <= hex_value(s),
    decreases s.len(),
{
    if k < s.len() {
        assert(s.drop_last().take(k) =~= s.take(k));
        assert(all_hex(s.drop_last()));
        lemma_hex_grows(s.drop_last(), k);
    } else {
        assert(s.take(k) =~= s);
    }
}

/// Sample input: "0x8086\n", "0XA788", "10de".
pub fn parse_hex_id(raw: &str) -> (r: Option<u32>)
    ensures
        r == hex_id(raw@),
{
    let v = chars_of(raw);
    let n = v.len();
    let (a, b) = trim_range(&v, 0, n);
    assert(v@.subrange(0, n as int) =~= v@);
    let ghost t = v@.subrange(a as int, b as int);
    let x = chars_of("0x");
    let xx = chars_of("0X");
    assert(x@.len() == 2) by {
        reveal_strlit("0x");
    }
    assert(xx@.len() == 2) by {
        reveal_strlit("0X");
    }
    if crate::text::has_at(&v, a, b, &x) || crate::text::has_at(&v, a, b, &xx) {
        assert(t.skip(2) =~= v@.subrange(a + 2, b as int));
        parse_hex_range(&v, a + 2, b)
    } else {
        parse_hex_range(&v, a, b)
    }
}


/// The vendor a display's ICD serves, when the file names one a display has.
pub open spec fn icd_serves(body: Seq<char>, displays: Seq<(u32, u32)>) -> bool {
    match library_of(body) {
        Some(lib) => match library_vendor(lib) {
            Some(v) => exists|j: int| 0 <= j < displays.len() && (#[trigger] displays[j]).0 == v,
            None => false,
        },
        None => false,
    }
}

/// The ICD files, in the order read and each once, whose library serves a display's vendor.
pub open spec fn icd_files(icds: Seq<(String, String)>, displays: Seq<(u32, u32)>) -> Seq<Seq<char>>
    decreases icds.len(),
{
    if icds.len() == 0 {
        Seq::empty()
    } else {
        let before = icd_files(icds.drop_last(), displays);
        let (path, body) = icds.last();
        if icd_serves(body@, displays) && !before.contains(path@) {
            before.push(path@)
        } else {
            before
        }
    }
}

/// The entries joined by `sep`.
pub open spec fn joined(parts: Seq<Seq<char>>, sep: char) -> Seq<char>
    decreases parts.len(),
{
    if parts.len() == 0 {
        Seq::empty()
    } else if parts.len() == 1 {
        parts[0]
    } else {
        joined(parts.drop_last(), sep) + seq![sep] + parts.last()
    }
}

/// What a box with these GPUs and ICD files is owed.
pub open spec fn pin_for(
    devices: Seq<(u32, u32)>,
    displays: Seq<(u32, u32)>,
    cards: Seq<(u32, u32)>,
    icds: Seq<(String, String)>,
) -> PinView {
    if !pin_needed(devices, displays, cards) {
        PinView::NotNeeded
    } else {
        match first_display(devices, displays) {
            None => PinView::NotNeeded,
            Some(gpu) => if icd_files(icds, displays).len() == 0 {
                PinView::Unmatched { vendor: gpu.0 }
            } else {
                PinView::Pin { icd: joined(icd_files(icds, displays), ':'), gpu }
            },
        }
    }
}

/// A display pin with its ICD list as characters.
pub enum PinView {
    NotNeeded,
    Unmatched { vendor: u32 },
    Pin { icd: Seq<char>, gpu: (u32, u32) },
}

pub open spec fn pin_view(p: DisplayPin) -> PinView {
    match p {
        DisplayPin::NotNeeded => PinView::NotNeeded,
        DisplayPin::Unmatched { vendor } => PinView::Unmatched { vendor },
        DisplayPin::Pin { icd, gpu } => PinView::Pin { icd: icd@, gpu },
    }
}

fn first_display_of(devices: &[(u32, u32)], displays: &[(u32, u32)]) -> (r: Option<(u32, u32)>)
    ensures
        r == first_display(devices@, displays@),
{
    let mut i: usize = 0;
    assert(devices@.skip(0) =~= devices@);
    while i < devices.len()
        invariant
            0 <= i <= devices.len(),
            first_display(devices@, displays@) == first_display(devices@.skip(i as int), displays@),
        decreases devices.len() - i,
    {
        assert(devices@.skip(i as int).drop_first() =~= devices@.skip(i + 1));
        if has_id(displays, devices[i]) {
            return Some(devices[i]);
        }
        i = i + 1;
    }
    None
}

fn has_string(list: &Vec<String>, s: &String) -> (r: bool)
    ensures
        r == list@.map_values(|x: String| x@).contains(s@),
{
    let sv = chars_of(s.as_str());
    let mut i: usize = 0;
    while i < list.len()
        invariant
            0 <= i <= list.len(),
            sv@ == s@,
            forall|j: int| 0 <= j < i ==> list@[j]@ != s@,
        decreases list.len() - i,
    {
        let lv = chars_of(list[i].as_str());
        let n = lv.len();
        assert(lv@.subrange(0, n as int) =~= lv@);
        if range_eq(&lv, 0, n, &sv) {
            assert(list@.map_values(|x: String| x@)[i as int] == s@);
            return true;
        }
        i = i + 1;
    }
    false
}

/// Whether an ICD file's body names a library that serves a display's vendor.
pub fn serves_display(body: &str, displays: &[(u32, u32)]) -> (r: bool)
    ensures
        r == icd_serves(body@, displays@),
{
    match icd_library(body) {
        Some(lib) => match vendor_of_library(lib.as_str()) {
            Some(v) => has_vendor(displays, v),
            None => false,
        },
        None => false,
    }
}

/// The files joined by ':'.
fn join_paths(parts: &Vec<String>) -> (r: String)
    ensures
        r@ == joined(parts@.map_values(|x: String| x@), ':'),
{
    let ghost pv = parts@.map_values(|x: String| x@);
    let mut out = String::new();
    let mut i: usize = 0;
    while i < parts.len()
        invariant
            0 <= i <= parts.len(),
            pv == parts@.map_values(|x: String| x@),
            out@ == joined(pv.take(i as int), ':'),
        decreases parts.len() - i,
    {
        assert(pv.take(i + 1).drop_last() =~= pv.take(i as int));
        if i > 0 {
            crate::text::push_char(&mut out, ':');
        } else {
            assert(pv.take(0) =~= Seq::<Seq<char>>::empty());
        }
        push_str(&mut out, parts[i].as_str());
        i = i + 1;
    }
    assert(pv.take(parts.len() as int) =~= pv);
    out
}

/// The ICD files, in order and each once, whose library serves a display GPU.
#[verifier::rlimit(40)]
fn matching_icds(displays: &[(u32, u32)], icds: &[(String, String)]) -> (files: Vec<String>)
    ensures
        files@.map_values(|x: String| x@) == icd_files(icds@, displays@),
{
    let mut files: Vec<String> = Vec::new();
    let mut i: usize = 0;
    while i < icds.len()
        invariant
            0 <= i <= icds.len(),
            files@.map_values(|x: String| x@) == icd_files(icds@.take(i as int), displays@),
        decreases icds.len() - i,
    {
        assert(icds@.take(i + 1).drop_last() =~= icds@.take(i as int));
        let (path, body) = &icds[i];
        if serves_display(body.as_str(), displays) && !has_string(&files, path) {
            files.push(path.clone());
            assert(files@.map_values(|x: String| x@) =~= icd_files(icds@.take(i as int), displays@).push(
                path@,
            ));
        }
        i = i + 1;
    }
    assert(icds@.take(icds.len() as int) =~= icds@);
    files
}

/// The display GPU's ICD list, chosen from the ICD files read in order as (path, body).
pub fn icd_for_displays(
    devices: &[(u32, u32)],
    displays: &[(u32, u32)],
    cards: &[(u32, u32)],
    icds: &[(String, String)],
) -> (r: DisplayPin)
    ensures
        pin_view(r) == pin_for(devices@, displays@, cards@, icds@),
{
    if !needs_icd_pin(devices, displays, cards) {
        return DisplayPin::NotNeeded;
    }
    let gpu = match first_display_of(devices, displays) {
        Some(gpu) => gpu,
        None => return DisplayPin::NotNeeded,
    };
    let files = matching_icds(displays, icds);
    if files.len() == 0 {
        DisplayPin::Unmatched { vendor: gpu.0 }
    } else {
        DisplayPin::Pin { icd: join_paths(&files), gpu }
    }
}

/// The extension `Path::extension` reads from a file name: after its last '.', unless that dot leads the name.
pub open spec fn extension_of(name: Seq<char>) -> Option<Seq<char>> {
    let dot = last_dot(name);
    if 0 < dot < name.len() {
        Some(name.skip(dot + 1int))
    } else {
        None
    }
}

/// The index of the last '.', or the length when there is none.
pub open spec fn last_dot(s: Seq<char>) -> int
    decreases s.len(),
{
    if s.len() == 0 {
        0
    } else if s.last() == '.' {
        s.len() - 1
    } else if last_dot(s.drop_last()) < s.len() - 1 {
        last_dot(s.drop_last())
    } else {
        s.len() as int
    }
}

/// Whether a file name ends in the `json` extension an ICD file carries.
pub fn is_json_name(name: &str) -> (r: bool)
    ensures
        r == (extension_of(name@) == Some("json"@)),
{
    let v = chars_of(name);
    let n = v.len();
    let mut k: usize = n;
    let mut i: usize = 0;
    while i < n
        invariant
            0 <= i <= n == v.len(),
            k == (if last_dot(v@.take(i as int)) < i { last_dot(v@.take(i as int)) } else { n as int }),
            k <= n,
        decreases n - i,
    {
        assert(v@.take(i + 1).drop_last() =~= v@.take(i as int));
        if v[i] == '.' {
            k = i;
        }
        i = i + 1;
    }
    assert(v@.take(n as int) =~= v@);
    if k == 0 || k >= n {
        return false;
    }
    let json = chars_of("json");
    assert(v@.skip(k + 1int) =~= v@.subrange(k + 1, n as int));
    range_eq(&v, k + 1, n, &json)
}

fn push_id(ids: &mut Vec<(u32, u32)>, id: (u32, u32))
    ensures
        final(ids)@ == (if old(ids)@.contains(id) {
            old(ids)@
        } else {
            old(ids)@.push(id)
        }),
{
    if !has_id(ids.as_slice(), id) {
        ids.push(id);
    }
}

/// Each card's (vendor, device), once, in the order the names were read: (name, vendor file, device file).
pub open spec fn card_ids_of(entries: Seq<(String, String, String)>) -> Seq<(u32, u32)>
    decreases entries.len(),
{
    if entries.len() == 0 {
        Seq::empty()
    } else {
        let before = card_ids_of(entries.drop_last());
        let (name, vendor, device) = entries.last();
        if card_name(name@) && hex_id(vendor@) is Some && hex_id(device@) is Some {
            let pair = (hex_id(vendor@)->0, hex_id(device@)->0);
            if before.contains(pair) {
                before
            } else {
                before.push(pair)
            }
        } else {
            before
        }
    }
}

/// Sample input: a sysfs drm class where card0 and card1 are cards and card1-DP-1 is a connector.
pub fn card_pci_ids(entries: &[(String, String, String)]) -> (r: Vec<(u32, u32)>)
    ensures
        r@ == card_ids_of(entries@),
{
    let mut ids: Vec<(u32, u32)> = Vec::new();
    let mut i: usize = 0;
    while i < entries.len()
        invariant
            0 <= i <= entries.len(),
            ids@ == card_ids_of(entries@.take(i as int)),
        decreases entries.len() - i,
    {
        assert(entries@.take(i + 1).drop_last() =~= entries@.take(i as int));
        let (name, vendor, device) = &entries[i];
        if is_card(name.as_str()) {
            match (parse_hex_id(vendor.as_str()), parse_hex_id(device.as_str())) {
                (Some(v), Some(d)) => push_id(&mut ids, (v, d)),
                _ => {},
            }
        }
        i = i + 1;
    }
    assert(entries@.take(entries.len() as int) =~= entries@);
    ids
}

/// The cards with a connected connector: (connector name, its status file, its card's vendor and device files).
pub open spec fn display_ids_of(entries: Seq<(String, String, String, String)>) -> Seq<(u32, u32)>
    decreases entries.len(),
{
    if entries.len() == 0 {
        Seq::empty()
    } else {
        let before = display_ids_of(entries.drop_last());
        let (name, status, vendor, device) = entries.last();
        if connector_of(name@) is Some && trim(status@) == "connected"@ && hex_id(vendor@) is Some
            && hex_id(device@) is Some {
            let pair = (hex_id(vendor@)->0, hex_id(device@)->0);
            if before.contains(pair) {
                before
            } else {
                before.push(pair)
            }
        } else {
            before
        }
    }
}

/// A connected connector is the proxy for the compositor's render device.
pub fn display_pci_ids(entries: &[(String, String, String, String)]) -> (r: Vec<(u32, u32)>)
    ensures
        r@ == display_ids_of(entries@),
{
    let connected = chars_of("connected");
    let mut ids: Vec<(u32, u32)> = Vec::new();
    let mut i: usize = 0;
    while i < entries.len()
        invariant
            0 <= i <= entries.len(),
            connected@ == "connected"@,
            ids@ == display_ids_of(entries@.take(i as int)),
        decreases entries.len() - i,
    {
        assert(entries@.take(i + 1).drop_last() =~= entries@.take(i as int));
        let (name, status, vendor, device) = &entries[i];
        if connector_card(name.as_str()).is_some() {
            let sv = chars_of(status.as_str());
            let (a, b) = trim_range(&sv, 0, sv.len());
            assert(sv@.subrange(0, sv@.len() as int) =~= sv@);
            if range_eq(&sv, a, b, &connected) {
                match (parse_hex_id(vendor.as_str()), parse_hex_id(device.as_str())) {
                    (Some(v), Some(d)) => push_id(&mut ids, (v, d)),
                    _ => {},
                }
            }
        }
        i = i + 1;
    }
    assert(entries@.take(entries.len() as int) =~= entries@);
    ids
}

/// The display GPU's ICD list; the launcher hands it the devices Vulkan listed and what sysfs and the ICD directories hold.
pub fn display_pin(
    devices: &[(u32, u32)],
    connectors: &[(String, String, String, String)],
    cards: &[(String, String, String)],
    icds: &[(String, String)],
) -> (r: DisplayPin)
    ensures
        pin_view(r) == pin_for(devices@, display_ids_of(connectors@), card_ids_of(cards@), icds@),
{
    let displays = display_pci_ids(connectors);
    let card_ids = card_pci_ids(cards);
    icd_for_displays(devices, displays.as_slice(), card_ids.as_slice(), icds)
}

/// VkResult's success, and VK_INCOMPLETE, which still wrote as many handles as it could.
pub const VK_SUCCESS: i32 = 0;

pub const VK_INCOMPLETE: i32 = 5;

/// The parts with `sep` between each two.
pub open spec fn spliced(parts: Seq<Seq<char>>, sep: Seq<char>) -> Seq<char>
    decreases parts.len(),
{
    if parts.len() == 0 {
        Seq::empty()
    } else if parts.len() == 1 {
        parts[0]
    } else {
        spliced(parts.drop_last(), sep) + sep + parts.last()
    }
}

/// The extensions a probe asks for, as one phrase. Sample: "VK_KHR_surface and VK_KHR_wayland_surface".
pub fn asked_text(extensions: &[&str]) -> (r: String)
    ensures
        r@ == spliced(extensions@.map_values(|e: &str| e@), " and "@),
{
    let ghost parts = extensions@.map_values(|e: &str| e@);
    let mut out = String::new();
    if extensions.len() == 0 {
        return out;
    }
    push_str(&mut out, extensions[0]);
    assert(parts.take(1) =~= seq![parts[0]]);
    let mut k: usize = 1;
    while k < extensions.len()
        invariant
            1 <= k <= extensions.len(),
            parts == extensions@.map_values(|e: &str| e@),
            out@ == spliced(parts.take(k as int), " and "@),
        decreases extensions.len() - k,
    {
        let ghost before = out@;
        push_str(&mut out, " and ");
        push_str(&mut out, extensions[k]);
        assert(parts.take(k + 1).drop_last() =~= parts.take(k as int));
        assert(out@ =~= before + " and "@ + parts[k as int]);
        k = k + 1;
    }
    assert(parts.take(extensions.len() as int) =~= parts);
    out
}

/// A VkResult as the probe's sentence prints it.
pub open spec fn code_text(code: i32) -> Seq<char> {
    if code < 0 {
        seq!['-'] + crate::text::decimal((-code) as nat)
    } else {
        crate::text::decimal(code as nat)
    }
}

fn push_code(out: &mut String, code: i32)
    ensures
        final(out)@ == old(out)@ + code_text(code),
{
    if code < 0 {
        crate::text::push_char(out, '-');
        let m: i64 = -(code as i64);
        crate::text::push_decimal(out, m as u64);
        assert(out@ =~= old(out)@ + code_text(code));
    } else {
        crate::text::push_decimal(out, code as u64);
    }
}

/// What vkCreateInstance's answer means: an instance to go on with, or why Vulkan is unusable.
pub open spec fn created_verdict(code: i32, has_instance: bool, asked: Seq<char>) -> Result<(), Seq<char>> {
    if code != VK_SUCCESS {
        Err("vkCreateInstance answered "@ + code_text(code) + " for "@ + asked)
    } else if !has_instance {
        Err("vkCreateInstance took "@ + asked + " and returned no instance"@)
    } else {
        Ok(())
    }
}

pub fn after_create(code: i32, has_instance: bool, asked: &str) -> (r: Result<(), String>)
    ensures
        match r {
            Ok(()) => created_verdict(code, has_instance, asked@) == Ok::<(), Seq<char>>(()),
            Err(e) => created_verdict(code, has_instance, asked@) == Err::<(), Seq<char>>(e@),
        },
{
    let mut msg = String::new();
    if code != VK_SUCCESS {
        push_str(&mut msg, "vkCreateInstance answered ");
        push_code(&mut msg, code);
        push_str(&mut msg, " for ");
        push_str(&mut msg, asked);
        Err(msg)
    } else if !has_instance {
        push_str(&mut msg, "vkCreateInstance took ");
        push_str(&mut msg, asked);
        push_str(&mut msg, " and returned no instance");
        Err(msg)
    } else {
        Ok(())
    }
}

/// What the first vkEnumeratePhysicalDevices, which only counts, means: how many handles to ask for.
pub open spec fn counted_verdict(code: i32, devices: u32) -> Result<u32, Seq<char>> {
    if code != VK_SUCCESS {
        Err("vkEnumeratePhysicalDevices answered "@ + code_text(code))
    } else if devices == 0 {
        Err("vkEnumeratePhysicalDevices succeeded and listed no device"@)
    } else {
        Ok(devices)
    }
}

pub fn after_count(code: i32, devices: u32) -> (r: Result<u32, String>)
    ensures
        match r {
            Ok(n) => counted_verdict(code, devices) == Ok::<u32, Seq<char>>(n),
            Err(e) => counted_verdict(code, devices) == Err::<u32, Seq<char>>(e@),
        },
{
    let mut msg = String::new();
    if code != VK_SUCCESS {
        push_str(&mut msg, "vkEnumeratePhysicalDevices answered ");
        push_code(&mut msg, code);
        Err(msg)
    } else if devices == 0 {
        push_str(&mut msg, "vkEnumeratePhysicalDevices succeeded and listed no device");
        Err(msg)
    } else {
        Ok(devices)
    }
}

/// What the second vkEnumeratePhysicalDevices means: VK_INCOMPLETE still wrote the handles it counted,
/// so treating it as failure would drop a working box to OpenGL.
pub open spec fn listed_verdict(code: i32) -> Result<(), Seq<char>> {
    if code == VK_SUCCESS || code == VK_INCOMPLETE {
        Ok(())
    } else {
        Err("vkEnumeratePhysicalDevices answered "@ + code_text(code))
    }
}

pub fn after_list(code: i32) -> (r: Result<(), String>)
    ensures
        match r {
            Ok(()) => listed_verdict(code) == Ok::<(), Seq<char>>(()),
            Err(e) => listed_verdict(code) == Err::<(), Seq<char>>(e@),
        },
{
    if code == VK_SUCCESS || code == VK_INCOMPLETE {
        Ok(())
    } else {
        let mut msg = String::new();
        push_str(&mut msg, "vkEnumeratePhysicalDevices answered ");
        push_code(&mut msg, code);
        Err(msg)
    }
}

/// Why the loader could not be used: it did not load, or lacks an entry point the probe calls.
pub open spec fn loader_refusal(symbol: Option<Seq<char>>, reason: Seq<char>) -> Seq<char> {
    match symbol {
        None => "libvulkan.so.1 did not load, "@ + reason,
        Some(name) => "libvulkan.so.1 has no "@ + name + ", "@ + reason,
    }
}

pub fn loader_refused(symbol: Option<&str>, reason: &str) -> (r: String)
    ensures
        r@ == loader_refusal(opt_str_view(symbol), reason@),
{
    let mut msg = String::new();
    match symbol {
        None => {
            push_str(&mut msg, "libvulkan.so.1 did not load, ");
        },
        Some(name) => {
            push_str(&mut msg, "libvulkan.so.1 has no ");
            push_str(&mut msg, name);
            push_str(&mut msg, ", ");
        },
    }
    push_str(&mut msg, reason);
    msg
}


/// Where the loader's ICD files are looked for: the user's own directory under $XDG_CONFIG_HOME, or
/// under $HOME/.config when that is unset or empty, then the system's two.
pub open spec fn icd_dirs_of(config: Option<Seq<char>>, home: Option<Seq<char>>) -> Seq<Seq<char>> {
    let own = if chosen(config) {
        seq![crate::paths::joined(config->0, "vulkan/icd.d"@)]
    } else if chosen(home) {
        seq![crate::paths::joined(home->0, ".config/vulkan/icd.d"@)]
    } else {
        Seq::empty()
    };
    own + seq!["/etc/vulkan/icd.d"@, "/usr/share/vulkan/icd.d"@]
}

pub fn icd_search_dirs(xdg_config_home: Option<&str>, home: Option<&str>) -> (r: Vec<String>)
    ensures
        r@.map_values(|d: String| d@) == icd_dirs_of(opt_str_view(xdg_config_home), opt_str_view(home)),
{
    let mut dirs: Vec<String> = Vec::new();
    if is_chosen(xdg_config_home) {
        dirs.push(crate::paths::join(xdg_config_home.unwrap(), "vulkan/icd.d"));
    } else if is_chosen(home) {
        dirs.push(crate::paths::join(home.unwrap(), ".config/vulkan/icd.d"));
    }
    dirs.push(String::from_str("/etc/vulkan/icd.d"));
    dirs.push(String::from_str("/usr/share/vulkan/icd.d"));
    assert(dirs@.map_values(|d: String| d@) =~= icd_dirs_of(opt_str_view(xdg_config_home), opt_str_view(home)));
    dirs
}

} // verus!
