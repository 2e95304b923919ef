// The environment the launcher hands the shell: the renderer it starts on, the display GPU's loader pin,
// the platform theme it trades away, and what a program the shell opens gets back.
use crate::env::{chosen, edits_view, is_chosen, opt_str_view, put, remove, EditView, EnvEdit};
use crate::json::hex_char;
use crate::text::{chars_of, push_char, push_str, trim};
use crate::vulkan::{pin_view, DisplayPin, PinView, DRIVER_FILES, ICD_FILENAMES, PIN_MARKER};
use vstd::prelude::*;

verus! {

/// Omarchy's own platform theme, and the only one the launcher trades away.
pub const GTK3: &'static str = "gtk3";

/// The launcher marks the theme it traded, so a program Flea opens gets it back.
pub const THEME_MARKER: &'static str = "FLEA_QT_THEME";

pub const PLATFORM_THEME: &'static str = "QT_QPA_PLATFORMTHEME";

pub const ICON_THEME: &'static str = "QS_ICON_THEME";

pub const RENDERER: &'static str = "QSG_RHI_BACKEND";

/// The marker that permits the shell's one retry on another renderer.
pub const AUTOMATIC: &'static str = "FLEA_RENDERER_AUTOMATIC";

pub const BIN: &'static str = "FLEA_BIN";

/// An explicit loader list is the operator's: an exported but empty one is absent, not a choice.
pub fn operator_chose_icd(driver: Option<&str>, icd: Option<&str>) -> (r: bool)
    ensures
        r == (chosen(opt_str_view(driver)) || chosen(opt_str_view(icd))),
{
    is_chosen(driver) || is_chosen(icd)
}

/// The hex digits of `n`, lower case, with no leading zeros.
pub open spec fn hex_text(n: nat) -> Seq<char>
    decreases n,
{
    if n < 16 {
        seq![hex_char(n)]
    } else {
        hex_text(n / 16).push(hex_char(n % 16))
    }
}

/// `{:#06x}`: "0x" and at least four hex digits.
pub open spec fn hex06(n: u32) -> Seq<char> {
    let d = hex_text(n as nat);
    "0x"@ + (if d.len() < 4 {
        Seq::new((4 - d.len()) as nat, |i: int| '0')
    } else {
        Seq::empty()
    }) + d
}

fn hex_digit(d: u32) -> (c: char)
    requires
        d < 16,
    ensures
        c == hex_char(d as nat),
{
    match d {
        0 => '0',
        1 => '1',
        2 => '2',
        3 => '3',
        4 => '4',
        5 => '5',
        6 => '6',
        7 => '7',
        8 => '8',
        9 => '9',
        10 => 'a',
        11 => 'b',
        12 => 'c',
        13 => 'd',
        14 => 'e',
        _ => 'f',
    }
}

fn push_hex(out: &mut String, n: u32)
    ensures
        final(out)@ == old(out)@ + hex_text(n as nat),
    decreases n,
{
    if n >= 16 {
        push_hex(out, n / 16);
    }
    push_char(out, hex_digit(n % 16));
    proof {
        if n >= 16 {
            assert(hex_text(n as nat) == hex_text((n / 16) as nat).push(hex_char((n % 16) as nat)));
        }
    }
    assert(out@ =~= old(out)@ + hex_text(n as nat));
}

fn push_hex06(out: &mut String, n: u32)
    ensures
        final(out)@ == old(out)@ + hex06(n),
{
    let ghost start = out@;
    push_str(out, "0x");
    let mut digits = String::new();
    push_hex(&mut digits, n);
    assert(digits@ =~= hex_text(n as nat));
    let d = chars_of(digits.as_str());
    let ghost zeros = if d.len() < 4 {
        Seq::new((4 - d.len()) as nat, |i: int| '0')
    } else {
        Seq::<char>::empty()
    };
    let mut k: usize = d.len();
    let ghost mid = out@;
    if k < 4 {
        while k < 4
            invariant
                d.len() <= k <= 4,
                d@ == hex_text(n as nat),
                out@ == mid + Seq::new((k - d.len()) as nat, |i: int| '0'),
            decreases 4 - k,
        {
            push_char(out, '0');
            assert(out@ =~= mid + Seq::new((k + 1 - d.len()) as nat, |i: int| '0'));
            k = k + 1;
        }
        assert(Seq::new((k - d.len()) as nat, |i: int| '0') =~= zeros);
    } else {
        assert(out@ =~= mid + zeros);
    }
    push_str(out, digits.as_str());
    assert(out@ =~= start + hex06(n));
}

/// What pinning the display GPU's loader list sets, and what it says.
pub open spec fn pin_plan(pin: PinView) -> (Seq<EditView>, Option<Seq<char>>) {
    match pin {
        PinView::NotNeeded => (Seq::empty(), None),
        PinView::Unmatched { vendor } => (
            Seq::empty(),
            Some(
                "flea: Vulkan sees a GPU with no display, but no ICD file names vendor "@ + hex06(vendor)
                    + ", so the loader's own list stands"@,
            ),
        ),
        PinView::Pin { icd, gpu } => (
            seq![
                EditView::Put(DRIVER_FILES@, icd),
                EditView::Put(ICD_FILENAMES@, icd),
                EditView::Put(PIN_MARKER@, "1"@),
            ],
            Some(
                "flea: Vulkan sees a GPU with no display, so the shell starts on "@ + hex06(gpu.0) + ":"@ + hex06(
                    gpu.1,
                ) + " through "@ + icd,
            ),
        ),
    }
}

/// A pin sets both loader variables and marks itself, so a child can tell it from the operator's own
/// list; a GPU with no known ICD is reported, and a box needing no pin sets nothing.
pub fn apply_display_pin(pin: &DisplayPin) -> (r: (Vec<EnvEdit>, Option<String>))
    ensures
        (edits_view(r.0@), crate::chooser::opt_view(r.1)) == pin_plan(pin_view(*pin)),
{
    let mut edits: Vec<EnvEdit> = Vec::new();
    match pin {
        DisplayPin::NotNeeded => {
            assert(edits_view(edits@) =~= Seq::<EditView>::empty());
            (edits, None)
        },
        DisplayPin::Unmatched { vendor } => {
            let mut msg = String::new();
            push_str(&mut msg, "flea: Vulkan sees a GPU with no display, but no ICD file names vendor ");
            push_hex06(&mut msg, *vendor);
            push_str(&mut msg, ", so the loader's own list stands");
            assert(edits_view(edits@) =~= Seq::<EditView>::empty());
            (edits, Some(msg))
        },
        DisplayPin::Pin { icd, gpu } => {
            edits.push(put(DRIVER_FILES, icd.as_str()));
            edits.push(put(ICD_FILENAMES, icd.as_str()));
            edits.push(put(PIN_MARKER, "1"));
            let mut msg = String::new();
            push_str(&mut msg, "flea: Vulkan sees a GPU with no display, so the shell starts on ");
            push_hex06(&mut msg, gpu.0);
            push_str(&mut msg, ":");
            push_hex06(&mut msg, gpu.1);
            push_str(&mut msg, " through ");
            push_str(&mut msg, icd.as_str());
            assert(edits_view(edits@) =~= pin_plan(pin_view(*pin)).0);
            (edits, Some(msg))
        },
    }
}

/// What a program Flea opens is given back: the platform theme this launcher traded away, and nothing
/// else; an unmarked launch, or an exported but empty marker, changes nothing.
pub open spec fn restore_plan(marker: Option<Seq<char>>) -> Seq<EditView> {
    if chosen(marker) {
        seq![
            EditView::Put(PLATFORM_THEME@, marker->0),
            EditView::Remove(ICON_THEME@),
            EditView::Remove(THEME_MARKER@),
        ]
    } else {
        Seq::empty()
    }
}

pub fn apply_theme_restore(marker: Option<&str>) -> (r: Vec<EnvEdit>)
    ensures
        edits_view(r@) == restore_plan(opt_str_view(marker)),
{
    let mut edits: Vec<EnvEdit> = Vec::new();
    if is_chosen(marker) {
        edits.push(put(PLATFORM_THEME, marker.unwrap()));
        edits.push(remove(ICON_THEME));
        edits.push(remove(THEME_MARKER));
        assert(edits_view(edits@) =~= restore_plan(opt_str_view(marker)));
    } else {
        assert(edits_view(edits@) =~= Seq::<EditView>::empty());
    }
    edits
}

/// gtk3 as Qt's platform theme starts GTK inside the shell for one string, the icon theme's name, so
/// the launcher hands the shell that name instead; an icon theme already chosen, another engine, or no
/// name in Omarchy's icons.theme leave the theme alone. `icons` is that file's text, if it was read.
pub open spec fn theme_trade(icon_theme: Option<Seq<char>>, platform_theme: Option<Seq<char>>, icons: Option<Seq<char>>) -> Seq<
    EditView,
> {
    if chosen(icon_theme) || platform_theme != Some(GTK3@) {
        Seq::empty()
    } else {
        match icons {
            Some(text) => if trim(text).len() == 0 {
                Seq::empty()
            } else {
                seq![
                    EditView::Put(ICON_THEME@, trim(text)),
                    EditView::Remove(PLATFORM_THEME@),
                    EditView::Put(THEME_MARKER@, GTK3@),
                ]
            },
            None => Seq::empty(),
        }
    }
}

fn is_text(s: Option<&str>, t: &str) -> (r: bool)
    ensures
        r == (opt_str_view(s) == Some(t@)),
{
    match s {
        Some(v) => {
            let a = chars_of(v);
            let b = chars_of(t);
            assert(a@.subrange(0, a.len() as int) =~= a@);
            crate::text::range_eq(&a, 0, a.len(), &b)
        },
        None => false,
    }
}

/// Sample icons.theme, the whole file: "Yaru-purple\n".
pub fn skip_gtk_platform_theme(icon_theme: Option<&str>, platform_theme: Option<&str>, icons: Option<&str>) -> (r: Vec<
    EnvEdit,
>)
    ensures
        edits_view(r@) == theme_trade(opt_str_view(icon_theme), opt_str_view(platform_theme), opt_str_view(icons)),
{
    let mut edits: Vec<EnvEdit> = Vec::new();
    assert(edits_view(edits@) =~= Seq::<EditView>::empty());
    if is_chosen(icon_theme) || !is_text(platform_theme, GTK3) {
        return edits;
    }
    let text = match icons {
        Some(t) => t,
        None => return edits,
    };
    let v = chars_of(text);
    let (a, b) = crate::text::trim_range(&v, 0, v.len());
    assert(v@.subrange(0, v.len() as int) =~= v@);
    if a == b {
        return edits;
    }
    let name = crate::text::string_of_range(&v, a, b);
    edits.push(put(ICON_THEME, name.as_str()));
    edits.push(remove(PLATFORM_THEME));
    edits.push(put(THEME_MARKER, GTK3));
    assert(edits_view(edits@) =~= theme_trade(opt_str_view(icon_theme), opt_str_view(platform_theme), opt_str_view(icons)));
    edits
}

/// Which renderer the shell starts on: the operator's own choice, Vulkan chosen by the operator, or
/// the launcher's probe.
#[derive(Clone, Copy, Debug, PartialEq, Eq, Structural)]
pub enum Renderer {
    Chosen,
    ChosenVulkan,
    Probe,
}

pub open spec fn renderer_of(backend: Option<Seq<char>>) -> Renderer {
    if chosen(backend) {
        if backend == Some("vulkan"@) {
            Renderer::ChosenVulkan
        } else {
            Renderer::Chosen
        }
    } else {
        Renderer::Probe
    }
}

pub fn renderer_for(backend: Option<&str>) -> (r: Renderer)
    ensures
        r == renderer_of(opt_str_view(backend)),
{
    if is_chosen(backend) {
        if is_text(backend, "vulkan") {
            Renderer::ChosenVulkan
        } else {
            Renderer::Chosen
        }
    } else {
        Renderer::Probe
    }
}

/// What a launch knows when it builds the shell's environment: the variables it reads, this binary's
/// path, the Vulkan probe's answer when the renderer was left to it, the display pin when one was
/// worked out, and the text of Omarchy's icons.theme when it could be read.
pub struct Launch {
    pub flea_bin: Option<String>,
    pub exe: Option<String>,
    pub renderer: Option<String>,
    pub probe: Option<Result<(), String>>,
    pub vk_driver_files: Option<String>,
    pub vk_icd_filenames: Option<String>,
    pub pin: Option<DisplayPin>,
    pub icon_theme: Option<String>,
    pub platform_theme: Option<String>,
    pub icons: Option<String>,
}

pub open spec fn sv(s: Option<String>) -> Option<Seq<char>> {
    crate::chooser::opt_view(s)
}

/// The pin's edits and message, unless the operator chose a loader list or no pin was worked out.
pub open spec fn pin_part(l: Launch) -> (Seq<EditView>, Option<Seq<char>>) {
    if chosen(sv(l.vk_driver_files)) || chosen(sv(l.vk_icd_filenames)) {
        (Seq::empty(), None)
    } else {
        match l.pin {
            Some(p) => pin_plan(pin_view(p)),
            None => (Seq::empty(), None),
        }
    }
}

pub open spec fn msgs(m: Option<Seq<char>>) -> Seq<Seq<char>> {
    match m {
        Some(x) => seq![x],
        None => Seq::empty(),
    }
}

/// The renderer's edits and what the launch says about it.
pub open spec fn renderer_part(l: Launch) -> (Seq<EditView>, Seq<Seq<char>>) {
    match renderer_of(sv(l.renderer)) {
        Renderer::Chosen => (seq![EditView::Remove(AUTOMATIC@)], Seq::empty()),
        Renderer::ChosenVulkan => (seq![EditView::Remove(AUTOMATIC@)] + pin_part(l).0, msgs(pin_part(l).1)),
        Renderer::Probe => match l.probe {
            Some(Err(reason)) => (
                seq![EditView::Put(RENDERER@, "opengl"@), EditView::Remove(AUTOMATIC@)],
                seq!["flea: Vulkan is unusable, "@ + reason@ + ", so the shell starts on OpenGL"@],
            ),
            Some(Ok(())) => (
                seq![EditView::Put(RENDERER@, "vulkan"@), EditView::Put(AUTOMATIC@, "1"@)] + pin_part(l).0,
                msgs(pin_part(l).1),
            ),
            None => (Seq::empty(), Seq::empty()),
        },
    }
}

/// The environment both entry points give the shell, and the lines the launch says on stderr: only the
/// main window records a prefetch list, the theme trade, the binary the shell calls back into unless the
/// operator named one, and the renderer.
pub open spec fn qs_plan(l: Launch) -> (Seq<EditView>, Seq<Seq<char>>) {
    let bin = if !chosen(sv(l.flea_bin)) && l.exe is Some {
        seq![EditView::Put(BIN@, l.exe->0@)]
    } else {
        Seq::empty()
    };
    let head = seq![EditView::Remove(crate::prefetch::LIST_ENV@)] + theme_trade(
        sv(l.icon_theme),
        sv(l.platform_theme),
        sv(l.icons),
    ) + bin;
    (head + renderer_part(l).0, renderer_part(l).1)
}

fn opt_str(s: &Option<String>) -> (r: Option<&str>)
    ensures
        opt_str_view(r) == sv(*s),
{
    match s {
        Some(v) => Some(v.as_str()),
        None => None,
    }
}

fn append(edits: &mut Vec<EnvEdit>, more: Vec<EnvEdit>)
    ensures
        edits_view(final(edits)@) == edits_view(old(edits)@) + edits_view(more@),
{
    let mut more = more;
    let ghost added = more@;
    edits.append(&mut more);
    assert(edits_view(old(edits)@ + added) =~= edits_view(old(edits)@) + edits_view(added));
}

fn pin_edits(l: &Launch) -> (r: (Vec<EnvEdit>, Option<String>))
    ensures
        (edits_view(r.0@), crate::chooser::opt_view(r.1)) == pin_part(*l),
{
    if operator_chose_icd(opt_str(&l.vk_driver_files), opt_str(&l.vk_icd_filenames)) {
        let none: Vec<EnvEdit> = Vec::new();
        assert(edits_view(none@) =~= Seq::<EditView>::empty());
        return (none, None);
    }
    match &l.pin {
        Some(p) => apply_display_pin(p),
        None => {
            let none: Vec<EnvEdit> = Vec::new();
            assert(edits_view(none@) =~= Seq::<EditView>::empty());
            (none, None)
        },
    }
}

fn one_message(m: Option<String>) -> (r: Vec<String>)
    ensures
        r@.map_values(|x: String| x@) == msgs(crate::chooser::opt_view(m)),
{
    let mut r: Vec<String> = Vec::new();
    match m {
        Some(x) => {
            r.push(x);
        },
        None => {},
    }
    assert(r@.map_values(|x: String| x@) =~= msgs(crate::chooser::opt_view(m)));
    r
}

fn renderer_edits(l: &Launch) -> (r: (Vec<EnvEdit>, Vec<String>))
    ensures
        (edits_view(r.0@), r.1@.map_values(|m: String| m@)) == renderer_part(*l),
{
    let mut edits: Vec<EnvEdit> = Vec::new();
    let mut said: Vec<String> = Vec::new();
    match renderer_for(opt_str(&l.renderer)) {
        Renderer::Chosen => {
            edits.push(remove(AUTOMATIC));
        },
        Renderer::ChosenVulkan => {
            edits.push(remove(AUTOMATIC));
            let (more, m) = pin_edits(l);
            append(&mut edits, more);
            said = one_message(m);
        },
        Renderer::Probe => match &l.probe {
            Some(Err(reason)) => {
                let mut msg = String::new();
                push_str(&mut msg, "flea: Vulkan is unusable, ");
                push_str(&mut msg, reason.as_str());
                push_str(&mut msg, ", so the shell starts on OpenGL");
                said.push(msg);
                edits.push(put(RENDERER, "opengl"));
                edits.push(remove(AUTOMATIC));
            },
            Some(Ok(())) => {
                edits.push(put(RENDERER, "vulkan"));
                edits.push(put(AUTOMATIC, "1"));
                let (more, m) = pin_edits(l);
                append(&mut edits, more);
                said = one_message(m);
            },
            None => {},
        },
    }
    assert(edits_view(edits@) =~= renderer_part(*l).0);
    assert(said@.map_values(|m: String| m@) =~= renderer_part(*l).1);
    (edits, said)
}

/// The environment both entry points give the shell and the lines the launch says; see `qs_plan`.
pub fn qs_env(l: &Launch) -> (r: (Vec<EnvEdit>, Vec<String>))
    ensures
        (edits_view(r.0@), r.1@.map_values(|m: String| m@)) == qs_plan(*l),
{
    let mut edits: Vec<EnvEdit> = Vec::new();
    edits.push(remove(crate::prefetch::LIST_ENV));
    assert(edits_view(edits@) =~= seq![EditView::Remove(crate::prefetch::LIST_ENV@)]);
    append(&mut edits, skip_gtk_platform_theme(opt_str(&l.icon_theme), opt_str(&l.platform_theme), opt_str(&l.icons)));
    let ghost trade = edits_view(edits@);
    let ghost bin = if !chosen(sv(l.flea_bin)) && l.exe is Some {
        seq![EditView::Put(BIN@, l.exe->0@)]
    } else {
        Seq::empty()
    };
    if !is_chosen(opt_str(&l.flea_bin)) {
        match &l.exe {
            Some(exe) => {
                edits.push(put(BIN, exe.as_str()));
            },
            None => {},
        }
    }
    assert(edits_view(edits@) =~= trade + bin);
    let (more, said) = renderer_edits(l);
    append(&mut edits, more);
    assert(edits_view(edits@) =~= qs_plan(*l).0);
    (edits, said)
}

/// The variable an edit sets or removes.
pub open spec fn edit_key(e: EditView) -> Seq<char> {
    match e {
        EditView::Put(k, _) => k,
        EditView::Remove(k) => k,
    }
}

/// The loader's own variables, and the marker a pin leaves.
pub open spec fn loader_key(k: Seq<char>) -> bool {
    k == DRIVER_FILES@ || k == ICD_FILENAMES@ || k == PIN_MARKER@
}

/// No edit of `es` touches the loader's variables or the pin's marker.
pub open spec fn leaves_loader(es: Seq<EditView>) -> bool {
    forall|i: int| 0 <= i < es.len() ==> !loader_key(edit_key(#[trigger] es[i]))
}

proof fn lemma_leaves_loader_join(a: Seq<EditView>, b: Seq<EditView>)
    requires
        leaves_loader(a),
        leaves_loader(b),
    ensures
        leaves_loader(a + b),
{
    assert forall|i: int| 0 <= i < (a + b).len() implies !loader_key(edit_key(#[trigger] (a + b)[i])) by {
        if i < a.len() {
            assert((a + b)[i] == a[i]);
        } else {
            assert((a + b)[i] == b[i - a.len()]);
        }
    }
}

/// None of the other variables the launch sets is one of the loader's.
proof fn lemma_other_keys()
    ensures
        !loader_key(crate::prefetch::LIST_ENV@),
        !loader_key(ICON_THEME@),
        !loader_key(PLATFORM_THEME@),
        !loader_key(THEME_MARKER@),
        !loader_key(BIN@),
        !loader_key(RENDERER@),
        !loader_key(AUTOMATIC@),
{
    reveal_strlit("VK_DRIVER_FILES");
    reveal_strlit("VK_ICD_FILENAMES");
    reveal_strlit("FLEA_VK_PIN");
    reveal_strlit("FLEA_PREFETCH");
    reveal_strlit("QS_ICON_THEME");
    reveal_strlit("QT_QPA_PLATFORMTHEME");
    reveal_strlit("FLEA_QT_THEME");
    reveal_strlit("FLEA_BIN");
    reveal_strlit("QSG_RHI_BACKEND");
    reveal_strlit("FLEA_RENDERER_AUTOMATIC");
    assert(RENDERER@[0] != DRIVER_FILES@[0]);
    assert(crate::prefetch::LIST_ENV@.len() == 13);
    assert(ICON_THEME@.len() == 13);
    assert(DRIVER_FILES@.len() == 15);
    assert(ICD_FILENAMES@.len() == 16);
    assert(PIN_MARKER@.len() == 11);
}

/// Whatever the launch knows, when the operator exported a loader list of their own (VK_DRIVER_FILES
/// or VK_ICD_FILENAMES, not empty) the shell's environment sets and removes none of VK_DRIVER_FILES,
/// VK_ICD_FILENAMES and FLEA_VK_PIN, and the launch is exactly what it would be with no pin worked out:
/// no pin edit, and no pin line said.
pub proof fn an_operator_loader_list_stands(l: Launch)
    requires
        chosen(sv(l.vk_driver_files)) || chosen(sv(l.vk_icd_filenames)),
    ensures
        leaves_loader(qs_plan(l).0),
        qs_plan(l) == qs_plan((Launch { pin: None, ..l })),
{
    lemma_other_keys();
    let trade = theme_trade(sv(l.icon_theme), sv(l.platform_theme), sv(l.icons));
    let bin = if !chosen(sv(l.flea_bin)) && l.exe is Some {
        seq![EditView::Put(BIN@, l.exe->0@)]
    } else {
        Seq::empty()
    };
    let first = seq![EditView::Remove(crate::prefetch::LIST_ENV@)];
    assert(leaves_loader(first)) by {
        assert forall|i: int| 0 <= i < first.len() implies !loader_key(edit_key(#[trigger] first[i])) by {
            assert(first[i] == EditView::Remove(crate::prefetch::LIST_ENV@));
        }
    }
    assert(leaves_loader(trade));
    assert(leaves_loader(bin));
    let r = renderer_part(l).0;
    assert(leaves_loader(r)) by {
        assert forall|i: int| 0 <= i < r.len() implies !loader_key(edit_key(#[trigger] r[i])) by {
            assert(pin_part(l).0.len() == 0);
        }
    }
    lemma_leaves_loader_join(first, trade);
    lemma_leaves_loader_join(first + trade, bin);
    lemma_leaves_loader_join(first + trade + bin, r);
}

/// Whenever the operator exported no loader list, the launch starts on Vulkan, and a pin to an ICD was
/// worked out, the shell's environment points both loader variables at that ICD and marks the pin.
pub proof fn a_worked_out_pin_points_the_loader_at_its_icd(l: Launch, icd: String, gpu: (u32, u32))
    requires
        !chosen(sv(l.vk_driver_files)),
        !chosen(sv(l.vk_icd_filenames)),
        l.pin == Some(DisplayPin::Pin { icd, gpu }),
        renderer_of(sv(l.renderer)) == Renderer::ChosenVulkan || (renderer_of(sv(l.renderer))
            == Renderer::Probe && l.probe == Some(Ok::<(), String>(()))),
    ensures
        qs_plan(l).0.contains(EditView::Put(DRIVER_FILES@, icd@)),
        qs_plan(l).0.contains(EditView::Put(ICD_FILENAMES@, icd@)),
        qs_plan(l).0.contains(EditView::Put(PIN_MARKER@, "1"@)),
{
    let es = qs_plan(l).0;
    let p = pin_part(l).0;
    let r = renderer_part(l).0;
    let n = es.len() - r.len();
    assert(p.len() == 3);
    assert(r.len() >= 3);
    let m = r.len() - 3;
    assert(r.subrange(m, r.len() as int) =~= p);
    assert(es[n + m] == p[0]);
    assert(es[n + m + 1] == p[1]);
    assert(es[n + m + 2] == p[2]);
}

/// The main window's environment: the shell's, then the prefetch list it records into, and the folder
/// and item it opens on.
pub open spec fn main_plan(l: Launch, list: Option<Seq<char>>, start: Option<Seq<char>>, select: Option<Seq<char>>) -> Seq<
    EditView,
> {
    qs_plan(l).0 + (match list {
        Some(x) => seq![EditView::Put(crate::prefetch::LIST_ENV@, x)],
        None => Seq::empty(),
    }) + (match start {
        Some(x) => seq![EditView::Put("FLEA_PATH"@, x)],
        None => Seq::empty(),
    }) + (match select {
        Some(x) => seq![EditView::Put("FLEA_SELECT"@, x)],
        None => Seq::empty(),
    })
}

/// The shell exec replaces the launcher with, so no pid is orphaned: the environment it is given and the
/// lines the launch says first.
pub fn exec_qs(l: &Launch, list: Option<&str>, start: Option<&str>, select: Option<&str>) -> (r: (
    Vec<EnvEdit>,
    Vec<String>,
))
    ensures
        edits_view(r.0@) == main_plan(*l, opt_str_view(list), opt_str_view(start), opt_str_view(select)),
        r.1@.map_values(|m: String| m@) == qs_plan(*l).1,
{
    let (mut edits, said) = qs_env(l);
    match list {
        Some(x) => {
            edits.push(put(crate::prefetch::LIST_ENV, x));
        },
        None => {},
    }
    match start {
        Some(x) => {
            edits.push(put("FLEA_PATH", x));
        },
        None => {},
    }
    match select {
        Some(x) => {
            edits.push(put("FLEA_SELECT", x));
        },
        None => {},
    }
    assert(edits_view(edits@) =~= main_plan(*l, opt_str_view(list), opt_str_view(start), opt_str_view(select)));
    (edits, said)
}

/// The file chooser opens only for a portal request: the reason it refuses one, if it does.
pub open spec fn pick_refusal_of(picker: Option<Seq<char>>, reply: Seq<char>, display: bool, ui: bool) -> Option<
    Seq<char>,
> {
    if !chosen(picker) {
        Some("flea: --pick needs FLEA_PICKER, the portal request tools/flea-portal puts in the environment"@)
    } else if reply.len() == 0 {
        Some("flea: --pick needs the reply file tools/flea-portal names, and it was empty"@)
    } else if !display {
        Some("flea: there is no graphical session to open a file chooser in"@)
    } else if !ui {
        Some("flea: the shell config is missing, set FLEA_UI or install /usr/share/flea/ui"@)
    } else {
        None
    }
}

pub fn pick_refusal(picker: Option<&str>, reply: &str, display: bool, ui: bool) -> (r: Option<&'static str>)
    ensures
        opt_str_view(r) == pick_refusal_of(opt_str_view(picker), reply@, display, ui),
{
    if !is_chosen(picker) {
        Some("flea: --pick needs FLEA_PICKER, the portal request tools/flea-portal puts in the environment")
    } else if reply.unicode_len() == 0 {
        Some("flea: --pick needs the reply file tools/flea-portal names, and it was empty")
    } else if !display {
        Some("flea: there is no graphical session to open a file chooser in")
    } else if !ui {
        Some("flea: the shell config is missing, set FLEA_UI or install /usr/share/flea/ui")
    } else {
        None
    }
}

} // verus!
