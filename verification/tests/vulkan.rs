use lib::env::EnvEdit;
use lib::vulkan::{
    after_count, after_create, after_list, asked_text, icd_search_dirs, loader_refused, SURFACE,
    card_pci_ids, connector_card, display_pci_ids, display_pin, drop_display_pin, icd_for_displays, icd_library,
    is_card, is_json_name, needs_icd_pin, parse_hex_id, pin_is_marked, surface_for, vendor_of_library, DisplayPin,
    PCI_VENDOR_AMD, PCI_VENDOR_INTEL, PCI_VENDOR_NVIDIA, WAYLAND_SURFACE, XCB_SURFACE,
};

#[test]
fn parse_hex_id_accepts_sysfs_and_bare_forms() {
    assert_eq!(parse_hex_id("0x8086\n"), Some(PCI_VENDOR_INTEL));
    assert_eq!(parse_hex_id("0XA788"), Some(0xa788));
    assert_eq!(parse_hex_id("10de"), Some(PCI_VENDOR_NVIDIA));
    assert_eq!(parse_hex_id("not-a-pci-id"), None);
}

#[test]
fn connector_card_reads_only_drm_connector_names() {
    assert_eq!(connector_card("card1-DP-1").as_deref(), Some("card1"));
    assert_eq!(connector_card("card0-eDP-1").as_deref(), Some("card0"));
    assert_eq!(connector_card("card0"), None);
    assert_eq!(connector_card("renderD128"), None);
    assert_eq!(connector_card("card-DP-1"), None);
}

#[test]
fn icd_library_reads_the_packaged_nvidia_shape() {
    let body = "{\n    \"file_format_version\" : \"1.0.1\",\n    \"ICD\": {\n        \"library_path\": \"libGLX_nvidia.so.0\",\n        \"api_version\" : \"1.4.341\"\n    }\n}\n";
    assert_eq!(icd_library(body).as_deref(), Some("libGLX_nvidia.so.0"));
}

#[test]
fn vendor_of_library_skips_hasvk_and_names_the_rest() {
    assert_eq!(vendor_of_library("libGLX_nvidia.so.0"), Some(PCI_VENDOR_NVIDIA));
    assert_eq!(vendor_of_library("libvulkan_intel.so"), Some(PCI_VENDOR_INTEL));
    assert_eq!(vendor_of_library("libvulkan_nouveau.so"), Some(PCI_VENDOR_NVIDIA));
    assert_eq!(vendor_of_library("libvulkan_intel_hasvk.so"), None);
    assert_eq!(vendor_of_library("libvulkan_radeon.so"), Some(PCI_VENDOR_AMD));
}

#[test]
fn a_gpu_with_no_display_needs_the_display_icd() {
    let intel = (PCI_VENDOR_INTEL, 0xa788);
    let nvidia = (PCI_VENDOR_NVIDIA, 0x27e0);
    let cards = [intel, nvidia];
    assert!(needs_icd_pin(&[intel, nvidia], &[nvidia], &cards));
    assert!(needs_icd_pin(&[intel, nvidia], &[intel], &cards));
    assert!(!needs_icd_pin(&[intel, nvidia], &[intel, nvidia], &cards));
    assert!(!needs_icd_pin(&[nvidia], &[nvidia], &cards));
    assert!(!needs_icd_pin(&[intel, nvidia], &[], &cards));
}

#[test]
fn a_vulkan_device_that_owns_no_drm_card_is_not_a_rival_gpu() {
    let intel = (PCI_VENDOR_INTEL, 0x3e92);
    let lavapipe = (0x10005, 0x0);
    assert!(!needs_icd_pin(&[intel, lavapipe], &[intel], &[intel]));
}

#[test]
fn a_same_vendor_rival_cannot_be_excluded_by_an_icd_list() {
    let igpu = (PCI_VENDOR_AMD, 0x164e);
    let dgpu = (PCI_VENDOR_AMD, 0x744c);
    assert!(!needs_icd_pin(&[igpu, dgpu], &[igpu], &[igpu, dgpu]));
}

#[test]
fn the_surface_extension_follows_the_session() {
    assert_eq!(surface_for(Some("wayland-1")), WAYLAND_SURFACE);
    assert_eq!(surface_for(Some("")), XCB_SURFACE);
    assert_eq!(surface_for(None), XCB_SURFACE);
}

#[test]
fn an_exported_but_empty_pin_marker_is_absent_not_a_pin() {
    assert!(!pin_is_marked(None));
    assert!(!pin_is_marked(Some("")));
    assert!(pin_is_marked(Some("1")));
}

fn icd(path: &str, lib: &str) -> (String, String) {
    (path.to_string(), format!("{{\"ICD\":{{\"library_path\":\"{}\"}}}}\n", lib))
}

#[test]
fn icd_for_displays_picks_the_nvidia_json_and_not_hasvk() {
    let intel = (PCI_VENDOR_INTEL, 0xa788);
    let nvidia = (PCI_VENDOR_NVIDIA, 0x27e0);
    let files = [
        icd("/icd/nvidia_icd.json", "libGLX_nvidia.so.0"),
        icd("/icd/intel_icd.json", "libvulkan_intel.so"),
        icd("/icd/intel_hasvk_icd.json", "libvulkan_intel_hasvk.so"),
    ];
    match icd_for_displays(&[intel, nvidia], &[nvidia], &[intel, nvidia], &files) {
        DisplayPin::Pin { icd, gpu } => {
            assert_eq!(icd, "/icd/nvidia_icd.json");
            assert_eq!(gpu, nvidia);
        }
        other => panic!("a hybrid tree must pin the display GPU: {:?}", other),
    }
}

#[test]
fn a_display_gpu_with_no_known_icd_is_reported_rather_than_pinned() {
    let answer = icd_for_displays(
        &[(PCI_VENDOR_INTEL, 0xa788), (PCI_VENDOR_NVIDIA, 0x27e0)],
        &[(PCI_VENDOR_NVIDIA, 0x27e0)],
        &[(PCI_VENDOR_INTEL, 0xa788), (PCI_VENDOR_NVIDIA, 0x27e0)],
        &[icd("/icd/mystery_icd.json", "libvulkan_mystery.so")],
    );
    assert!(matches!(answer, DisplayPin::Unmatched { vendor: PCI_VENDOR_NVIDIA }));
}

#[test]
fn two_icd_files_for_the_display_vendor_are_joined_once_each() {
    let nvidia = (PCI_VENDOR_NVIDIA, 0x27e0);
    let intel = (PCI_VENDOR_INTEL, 0xa788);
    let files = [
        icd("/a/nvidia_icd.json", "libGLX_nvidia.so.0"),
        icd("/b/nouveau_icd.json", "libvulkan_nouveau.so"),
        icd("/a/nvidia_icd.json", "libGLX_nvidia.so.0"),
    ];
    match icd_for_displays(&[intel, nvidia], &[nvidia], &[intel, nvidia], &files) {
        DisplayPin::Pin { icd, .. } => assert_eq!(icd, "/a/nvidia_icd.json:/b/nouveau_icd.json"),
        other => panic!("{:?}", other),
    }
}

fn s(x: &str) -> String {
    x.to_string()
}

#[test]
fn display_pci_ids_reads_connected_cards_from_a_fake_drm_tree() {
    let connectors = [
        (s("card0-eDP-1"), s("disconnected\n"), s("0x8086\n"), s("0xa788\n")),
        (s("card1-DP-1"), s("connected\n"), s("0x10de\n"), s("0x27e0\n")),
        (s("card1-eDP-1"), s("connected\n"), s("0x10de\n"), s("0x27e0\n")),
        (s("card1"), s("connected\n"), s("0x10de\n"), s("0x27e0\n")),
    ];
    assert_eq!(display_pci_ids(&connectors), vec![(PCI_VENDOR_NVIDIA, 0x27e0)]);
}

#[test]
fn a_fake_hybrid_tree_pins_the_display_gpu_icd() {
    let connectors = [
        (s("card0-eDP-1"), s("disconnected\n"), s("0x8086\n"), s("0xa788\n")),
        (s("card1-DP-1"), s("connected\n"), s("0x10de\n"), s("0x27e0\n")),
    ];
    let cards = [
        (s("card0"), s("0x8086\n"), s("0xa788\n")),
        (s("card1"), s("0x10de\n"), s("0x27e0\n")),
        (s("card1-DP-1"), s(""), s("")),
        (s("renderD128"), s("0x10de\n"), s("0x27e0\n")),
    ];
    assert_eq!(card_pci_ids(&cards), vec![(PCI_VENDOR_INTEL, 0xa788), (PCI_VENDOR_NVIDIA, 0x27e0)]);
    let icds = [icd("/icd/nvidia_icd.json", "libGLX_nvidia.so.0"), icd("/icd/intel_icd.json", "libvulkan_intel.so")];
    match display_pin(&[(PCI_VENDOR_INTEL, 0xa788), (PCI_VENDOR_NVIDIA, 0x27e0)], &connectors, &cards, &icds) {
        DisplayPin::Pin { icd, gpu } => {
            assert!(icd.ends_with("nvidia_icd.json"), "{icd}");
            assert!(!icd.contains("intel"), "{icd}");
            assert_eq!(gpu, (PCI_VENDOR_NVIDIA, 0x27e0));
        }
        other => panic!("a hybrid tree must pin the display GPU: {:?}", other),
    }
    let alone = display_pin(&[(PCI_VENDOR_NVIDIA, 0x27e0)], &connectors, &cards, &icds);
    assert!(matches!(alone, DisplayPin::NotNeeded));
}

#[test]
fn card_names_and_json_names() {
    assert!(is_card("card0"));
    assert!(is_card("card12"));
    assert!(!is_card("card"));
    assert!(!is_card("card1-DP-1"));
    assert!(is_json_name("nvidia_icd.json"));
    assert!(!is_json_name(".json"));
    assert!(!is_json_name("icd.json.bak"));
    assert!(!is_json_name("json"));
}

#[test]
fn hex_ids_refuse_what_a_u32_cannot_hold() {
    assert_eq!(parse_hex_id("+ff"), Some(0xff));
    assert_eq!(parse_hex_id("0x"), None);
    assert_eq!(parse_hex_id("ffffffff"), Some(u32::MAX));
    assert_eq!(parse_hex_id("100000000"), None);
    assert_eq!(parse_hex_id("0x-1"), None);
}

#[test]
fn a_child_loses_only_the_launchers_own_pin() {
    assert!(drop_display_pin(None).is_empty());
    assert!(drop_display_pin(Some("")).is_empty());
    assert_eq!(
        drop_display_pin(Some("1")),
        vec![
            EnvEdit::Remove("VK_DRIVER_FILES".to_string()),
            EnvEdit::Remove("VK_ICD_FILENAMES".to_string()),
            EnvEdit::Remove("FLEA_VK_PIN".to_string()),
        ]
    );
}

// VK_ERROR_EXTENSION_NOT_PRESENT, what a loader answers for an extension it cannot offer.
const EXTENSION_NOT_PRESENT: i32 = -7;

#[test]
fn every_refusal_names_the_call_and_the_extensions_it_was_asked_for() {
    let asked = asked_text(&[SURFACE, "VK_KHR_flea_probe_extension_that_cannot_exist"]);
    assert_eq!(asked, "VK_KHR_surface and VK_KHR_flea_probe_extension_that_cannot_exist");
    let reason = after_create(EXTENSION_NOT_PRESENT, false, &asked).unwrap_err();
    assert_eq!(reason, "vkCreateInstance answered -7 for VK_KHR_surface and VK_KHR_flea_probe_extension_that_cannot_exist");
    assert!(after_create(0, false, "VK_KHR_surface").unwrap_err().ends_with("and returned no instance"));
    assert_eq!(after_create(0, true, "VK_KHR_surface"), Ok(()));
    assert_eq!(asked_text(&[]), "");
}

#[test]
fn an_incomplete_list_still_counts_and_an_empty_one_is_unusable() {
    assert_eq!(after_count(0, 2), Ok(2));
    assert_eq!(after_count(0, 0).unwrap_err(), "vkEnumeratePhysicalDevices succeeded and listed no device");
    assert_eq!(after_count(-3, 2).unwrap_err(), "vkEnumeratePhysicalDevices answered -3");
    assert_eq!(after_list(0), Ok(()));
    assert_eq!(after_list(5), Ok(()));
    assert_eq!(after_list(-1).unwrap_err(), "vkEnumeratePhysicalDevices answered -1");
    assert_eq!(after_list(i32::MIN).unwrap_err(), "vkEnumeratePhysicalDevices answered -2147483648");
}

#[test]
fn a_loader_that_cannot_be_used_is_named_with_its_reason() {
    assert_eq!(loader_refused(None, "no such file"), "libvulkan.so.1 did not load, no such file");
    assert_eq!(
        loader_refused(Some("vkCreateInstance"), "undefined symbol"),
        "libvulkan.so.1 has no vkCreateInstance, undefined symbol"
    );
}

#[test]
fn the_user_s_own_icd_directory_comes_first_and_an_empty_variable_is_absent() {

    assert_eq!(
        icd_search_dirs(Some("/x"), Some("/home/me")),
        vec!["/x/vulkan/icd.d", "/etc/vulkan/icd.d", "/usr/share/vulkan/icd.d"]
    );
    assert_eq!(
        icd_search_dirs(Some(""), Some("/home/me")),
        vec!["/home/me/.config/vulkan/icd.d", "/etc/vulkan/icd.d", "/usr/share/vulkan/icd.d"]
    );
    assert_eq!(icd_search_dirs(None, None), vec!["/etc/vulkan/icd.d", "/usr/share/vulkan/icd.d"]);
}
