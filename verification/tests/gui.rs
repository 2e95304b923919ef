use lib::env::EnvEdit;
use lib::gui::{
    apply_display_pin, apply_theme_restore, exec_qs, operator_chose_icd, pick_refusal, qs_env, renderer_for,
    skip_gtk_platform_theme, Launch, Renderer, THEME_MARKER,
};
use lib::vulkan::{DisplayPin, PIN_MARKER};

fn put_of(edits: &[EnvEdit], key: &str) -> Option<String> {
    edits.iter().rev().find_map(|e| match e {
        EnvEdit::Put(k, v) if k == key => Some(v.clone()),
        _ => None,
    })
}

fn removed(edits: &[EnvEdit], key: &str) -> bool {
    edits.iter().any(|e| matches!(e, EnvEdit::Remove(k) if k == key))
}

fn plain_launch() -> Launch {
    Launch {
        flea_bin: None,
        exe: Some(String::from("/usr/bin/flea")),
        renderer: None,
        probe: None,
        vk_driver_files: None,
        vk_icd_filenames: None,
        pin: None,
        icon_theme: None,
        platform_theme: None,
        icons: None,
    }
}

#[test]
fn a_display_gpu_pin_sets_both_loader_variables() {
    let icd = String::from("/usr/share/vulkan/icd.d/nvidia_icd.json");
    let (edits, _) = apply_display_pin(&DisplayPin::Pin { icd: icd.clone(), gpu: (0x10de, 0x27e0) });
    assert_eq!(put_of(&edits, "VK_DRIVER_FILES").as_deref(), Some(icd.as_str()));
    assert_eq!(put_of(&edits, "VK_ICD_FILENAMES").as_deref(), Some(icd.as_str()));
}

#[test]
fn a_pin_marks_itself_so_a_child_can_tell_it_from_the_operators_own_list() {
    let (edits, _) = apply_display_pin(&DisplayPin::Pin { icd: String::from("/x.json"), gpu: (0x10de, 0x27e0) });
    assert_eq!(put_of(&edits, PIN_MARKER).as_deref(), Some("1"));
}

#[test]
fn an_exported_but_empty_loader_variable_is_absent_not_a_choice() {
    assert!(!operator_chose_icd(None, None));
    assert!(!operator_chose_icd(Some(""), Some("")));
    assert!(operator_chose_icd(Some("/a.json"), None));
    assert!(operator_chose_icd(None, Some("/b.json")));
}

#[test]
fn a_box_needing_no_pin_sets_no_loader_variable() {
    let (edits, said) = apply_display_pin(&DisplayPin::NotNeeded);
    assert_eq!(put_of(&edits, "VK_DRIVER_FILES"), None);
    assert_eq!(put_of(&edits, "VK_ICD_FILENAMES"), None);
    assert_eq!(put_of(&edits, PIN_MARKER), None);
    assert!(edits.is_empty());
    assert_eq!(said, None);
}

#[test]
fn a_traded_platform_theme_is_handed_back_to_an_opened_program() {
    let edits = apply_theme_restore(Some("gtk3"));
    assert_eq!(put_of(&edits, "QT_QPA_PLATFORMTHEME").as_deref(), Some("gtk3"));
    assert!(removed(&edits, "QS_ICON_THEME"));
    assert!(removed(&edits, THEME_MARKER));
}

#[test]
fn an_unmarked_launch_leaves_an_opened_programs_theme_alone() {
    assert_eq!(apply_theme_restore(None).len(), 0);
}

#[test]
fn an_exported_but_empty_theme_marker_is_absent_not_a_trade() {
    assert_eq!(apply_theme_restore(Some("")).len(), 0);
}

#[test]
fn a_display_gpu_with_no_icd_file_sets_no_loader_variable() {
    let (edits, said) = apply_display_pin(&DisplayPin::Unmatched { vendor: 0x10de });
    assert_eq!(put_of(&edits, "VK_DRIVER_FILES"), None);
    assert_eq!(put_of(&edits, "VK_ICD_FILENAMES"), None);
    assert_eq!(
        said.as_deref(),
        Some("flea: Vulkan sees a GPU with no display, but no ICD file names vendor 0x10de, so the loader's own list stands")
    );
}

#[test]
fn a_pin_says_the_gpu_and_the_file_in_four_hex_digits_at_least() {
    let (_, said) = apply_display_pin(&DisplayPin::Pin { icd: String::from("/x.json"), gpu: (0x10de, 0x7e0) });
    assert_eq!(
        said.as_deref(),
        Some("flea: Vulkan sees a GPU with no display, so the shell starts on 0x10de:0x07e0 through /x.json")
    );
    let (_, said) = apply_display_pin(&DisplayPin::Unmatched { vendor: 0x1_0000 });
    assert!(said.unwrap().contains("vendor 0x10000,"));
}

#[test]
fn gtk3_is_traded_for_the_icon_theme_name_and_marked() {
    let edits = skip_gtk_platform_theme(None, Some("gtk3"), Some("  Yaru-purple\n"));
    assert_eq!(
        edits,
        vec![
            EnvEdit::Put(String::from("QS_ICON_THEME"), String::from("Yaru-purple")),
            EnvEdit::Remove(String::from("QT_QPA_PLATFORMTHEME")),
            EnvEdit::Put(String::from(THEME_MARKER), String::from("gtk3")),
        ]
    );
}

#[test]
fn a_chosen_icon_theme_another_engine_or_a_blank_file_leave_the_theme_alone() {
    assert!(skip_gtk_platform_theme(Some("Papirus"), Some("gtk3"), Some("Yaru")).is_empty());
    assert!(skip_gtk_platform_theme(None, Some("qt6ct"), Some("Yaru")).is_empty());
    assert!(skip_gtk_platform_theme(None, Some("gtk3"), Some(" \n")).is_empty());
    assert!(skip_gtk_platform_theme(None, Some("gtk3"), None).is_empty());
    assert!(!skip_gtk_platform_theme(Some(""), Some("gtk3"), Some("Yaru")).is_empty());
}

#[test]
fn the_renderer_is_the_operators_unless_left_unset() {
    assert_eq!(renderer_for(Some("vulkan")), Renderer::ChosenVulkan);
    assert_eq!(renderer_for(Some("opengl")), Renderer::Chosen);
    assert_eq!(renderer_for(Some("")), Renderer::Probe);
    assert_eq!(renderer_for(None), Renderer::Probe);
}

#[test]
fn an_unusable_vulkan_starts_the_shell_on_opengl_and_says_why() {
    let mut l = plain_launch();
    l.probe = Some(Err(String::from("no device")));
    let (edits, said) = qs_env(&l);
    assert_eq!(put_of(&edits, "QSG_RHI_BACKEND").as_deref(), Some("opengl"));
    assert!(removed(&edits, "FLEA_RENDERER_AUTOMATIC"));
    assert_eq!(put_of(&edits, "FLEA_BIN").as_deref(), Some("/usr/bin/flea"));
    assert_eq!(said, vec![String::from("flea: Vulkan is unusable, no device, so the shell starts on OpenGL")]);
}

#[test]
fn a_usable_vulkan_is_marked_automatic_and_pinned_unless_the_operator_chose_a_list() {
    let mut l = plain_launch();
    l.probe = Some(Ok(()));
    l.pin = Some(DisplayPin::Pin { icd: String::from("/n.json"), gpu: (0x10de, 0x27e0) });
    let (edits, said) = qs_env(&l);
    assert_eq!(put_of(&edits, "QSG_RHI_BACKEND").as_deref(), Some("vulkan"));
    assert_eq!(put_of(&edits, "FLEA_RENDERER_AUTOMATIC").as_deref(), Some("1"));
    assert_eq!(put_of(&edits, "VK_DRIVER_FILES").as_deref(), Some("/n.json"));
    assert_eq!(said.len(), 1);
    l.vk_icd_filenames = Some(String::from("/mine.json"));
    let (edits, said) = qs_env(&l);
    assert_eq!(put_of(&edits, "VK_DRIVER_FILES"), None);
    assert!(said.is_empty());
}

#[test]
fn only_the_main_window_records_a_prefetch_list() {
    let mut l = plain_launch();
    l.flea_bin = Some(String::from("/opt/flea"));
    l.renderer = Some(String::from("opengl"));
    let (edits, said) = qs_env(&l);
    assert_eq!(edits[0], EnvEdit::Remove(String::from("FLEA_PREFETCH")));
    assert_eq!(put_of(&edits, "FLEA_BIN"), None);
    assert!(said.is_empty());
    let (edits, _) = exec_qs(&l, Some("/run/list"), Some("/home"), None);
    assert_eq!(put_of(&edits, "FLEA_PREFETCH").as_deref(), Some("/run/list"));
    assert_eq!(put_of(&edits, "FLEA_PATH").as_deref(), Some("/home"));
    assert_eq!(put_of(&edits, "FLEA_SELECT"), None);
}

#[test]
fn the_chooser_refuses_in_the_order_the_launcher_checks() {
    assert!(pick_refusal(None, "r", true, true).unwrap().contains("FLEA_PICKER"));
    assert!(pick_refusal(Some("1"), "", true, true).unwrap().contains("reply file"));
    assert!(pick_refusal(Some("1"), "r", false, true).unwrap().contains("graphical session"));
    assert!(pick_refusal(Some("1"), "r", true, false).unwrap().contains("shell config"));
    assert_eq!(pick_refusal(Some("1"), "r", true, true), None);
}
