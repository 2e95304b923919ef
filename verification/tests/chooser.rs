use lib::chooser::{desktop_candidates, is_desktop_file_name, effective_conf};
use lib::chooser::{
    claim_plan, release_plan, release_summary, report_lines, FileWrite,
    drop_preferred, follow_line, is_fleas_value, line_value, marker_line, preferred_value, set_preferred, AT_STARTUP,
    IFACE, PREFERRED, REPLACED, RESTARTED,
};

const BOX_SHAPE: &str = "[preferred]\ndefault=hyprland;gtk\n";

#[test]
fn set_preferred_adds_the_key_without_touching_the_default() {
    let out = set_preferred(BOX_SHAPE, IFACE, PREFERRED).expect("the file gains a line");
    assert_eq!(out, "[preferred]\ndefault=hyprland;gtk\norg.freedesktop.impl.portal.FileChooser=flea;gtk\n");
}

#[test]
fn set_preferred_creates_the_group_when_the_file_has_another_one() {
    let out = set_preferred("[something]\nkey=value\n", IFACE, PREFERRED).expect("the file gains a group");
    assert_eq!(out, "[something]\nkey=value\n[preferred]\norg.freedesktop.impl.portal.FileChooser=flea;gtk\n");
}

#[test]
fn set_preferred_replaces_another_backend_and_answers_none_for_its_own() {
    let held = "[preferred]\norg.freedesktop.impl.portal.FileChooser=gtk\ndefault=hyprland\n";
    let out = set_preferred(held, IFACE, PREFERRED).expect("the value changes");
    assert_eq!(
        out,
        "[preferred]\n# flea replaced: org.freedesktop.impl.portal.FileChooser=gtk\norg.freedesktop.impl.portal.FileChooser=flea;gtk\ndefault=hyprland\n"
    );
    assert_eq!(set_preferred(&out, IFACE, PREFERRED), None);
}

// The reported box: a desktop file routing the chooser to Nautilus, which the claim now edits in place.
const NAUTILUS: &str = "[preferred]\ndefault=hyprland;gtk\norg.freedesktop.impl.portal.FileChooser=gnome;gtk\n";

#[test]
fn a_claim_and_its_undo_put_the_replaced_backend_back_byte_for_byte() {
    let claimed = set_preferred(NAUTILUS, IFACE, PREFERRED).expect("the value changes");
    assert_eq!(preferred_value(&claimed, IFACE).as_deref(), Some(PREFERRED));
    assert_eq!(drop_preferred(&claimed, IFACE).as_deref(), Some(NAUTILUS));
}

#[test]
fn a_second_claim_after_a_hand_edit_keeps_one_note_naming_the_latest_backend() {
    let claimed = set_preferred(NAUTILUS, IFACE, PREFERRED).expect("claimed");
    let edited = claimed.replace("FileChooser=flea;gtk", "FileChooser=kde");
    let again = set_preferred(&edited, IFACE, PREFERRED).expect("claimed again");
    assert_eq!(again.matches(REPLACED).count(), 1, "one note, not two: {:?}", again);
    assert!(again.contains("# flea replaced: org.freedesktop.impl.portal.FileChooser=kde\n"));
    assert_eq!(
        drop_preferred(&again, IFACE).as_deref(),
        Some(edited.replace("# flea replaced: org.freedesktop.impl.portal.FileChooser=gnome;gtk\n", "").as_str())
    );
}

#[test]
fn an_undo_leaves_a_backend_the_user_chose_after_the_claim_alone() {
    let claimed = set_preferred(NAUTILUS, IFACE, PREFERRED).expect("claimed");
    let edited = claimed.replace("FileChooser=flea;gtk", "FileChooser=kde");
    assert_eq!(drop_preferred(&edited, IFACE), None);
}

#[test]
fn a_bare_flea_value_is_flea_s_own_and_never_saved_as_the_one_to_restore() {
    let bare = "[preferred]\norg.freedesktop.impl.portal.FileChooser=flea\n";
    let out = set_preferred(bare, IFACE, PREFERRED).expect("the value changes");
    assert!(!out.contains(REPLACED), "{:?}", out);
    assert_eq!(drop_preferred(&out, IFACE).as_deref(), Some("[preferred]\n"));
}

#[test]
fn set_preferred_puts_the_key_inside_the_group_and_not_after_the_next_one() {
    let two = "[preferred]\ndefault=hyprland\n\n[other]\nkey=value\n";
    let out = set_preferred(two, IFACE, PREFERRED).expect("the file gains a line");
    assert_eq!(out, "[preferred]\ndefault=hyprland\n\norg.freedesktop.impl.portal.FileChooser=flea;gtk\n[other]\nkey=value\n");
}

#[test]
fn drop_preferred_removes_only_fleas_line() {
    let held = "[preferred]\ndefault=hyprland;gtk\norg.freedesktop.impl.portal.FileChooser=flea;gtk\n";
    assert_eq!(drop_preferred(held, IFACE), Some("[preferred]\ndefault=hyprland;gtk\n".to_string()));
    assert_eq!(drop_preferred(BOX_SHAPE, IFACE), None);
    assert_eq!(drop_preferred("", IFACE), None);
}

#[test]
fn a_terminal_run_restarts_the_portal_and_a_piped_one_leaves_it_to_its_caller() {
    let calls = std::cell::Cell::new(0);
    let restart = |ok: bool| {
        let calls = &calls;
        move || {
            calls.set(calls.get() + 1);
            ok
        }
    };
    assert_eq!(follow_line(false, restart(true)), AT_STARTUP, "a piped run is told how to restart");
    assert_eq!(calls.get(), 0, "a piped run never restarts the portal");
    assert_eq!(follow_line(true, restart(true)), RESTARTED);
    assert_eq!(follow_line(true, restart(false)), AT_STARTUP, "a refused restart falls back to the command");
    assert_eq!(calls.get(), 2, "a terminal run restarts exactly once");
}

#[test]
fn drop_preferred_leaves_the_same_key_in_another_group_alone() {
    let elsewhere = "[other]\norg.freedesktop.impl.portal.FileChooser=gtk\n";
    assert_eq!(drop_preferred(elsewhere, IFACE), None);
}

#[test]
fn a_flea_spelled_value_keeps_the_note_naming_the_backend_before_it() {
    let noted = "[preferred]\n# flea replaced: org.freedesktop.impl.portal.FileChooser=gnome;gtk\norg.freedesktop.impl.portal.FileChooser=flea\n";
    let out = set_preferred(noted, IFACE, PREFERRED).expect("the value changes");
    assert!(out.contains("# flea replaced: org.freedesktop.impl.portal.FileChooser=gnome;gtk\n"), "{:?}", out);
    assert_eq!(drop_preferred(&out, IFACE).as_deref(), Some("[preferred]\norg.freedesktop.impl.portal.FileChooser=gnome;gtk\n"));
}

#[test]
fn a_note_left_without_its_line_is_dropped_so_an_undo_restores_nothing_it_names() {
    let stale = "[preferred]\n# flea replaced: org.freedesktop.impl.portal.FileChooser=gnome;gtk\ndefault=hyprland;gtk\n";
    let out = set_preferred(stale, IFACE, PREFERRED).expect("the file gains a line");
    assert!(!out.contains(REPLACED), "{:?}", out);
    assert_eq!(drop_preferred(&out, IFACE).as_deref(), Some("[preferred]\ndefault=hyprland;gtk\n"));
}

#[test]
fn a_key_file_read_with_crlf_lines_and_padding_still_finds_the_value() {
    let text = "  [preferred]  \r\nother=1\r\norg.freedesktop.impl.portal.FileChooser=  gnome;gtk \r\n";
    assert_eq!(preferred_value(text, IFACE).as_deref(), Some("gnome;gtk"));
    assert_eq!(preferred_value("[other]\norg.freedesktop.impl.portal.FileChooser=gtk\n", IFACE), None);
}

#[test]
fn a_file_with_no_trailing_newline_gains_one_before_the_group() {
    let out = set_preferred("[x]\na=b", IFACE, PREFERRED).unwrap();
    assert_eq!(out, "[x]\na=b\n[preferred]\norg.freedesktop.impl.portal.FileChooser=flea;gtk\n");
    let out = set_preferred("[preferred]\ndefault=gtk", IFACE, PREFERRED).unwrap();
    assert_eq!(out, "[preferred]\ndefault=gtk\norg.freedesktop.impl.portal.FileChooser=flea;gtk\n");
}

#[test]
fn the_line_helpers_read_one_line() {
    assert_eq!(line_value("org.freedesktop.impl.portal.FileChooser=gnome;gtk", IFACE).as_deref(), Some("gnome;gtk"));
    assert_eq!(line_value("org.freedesktop.impl.portal.FileChooserX=gnome", IFACE), None);
    assert!(marker_line("# flea replaced: org.freedesktop.impl.portal.FileChooser=gnome;gtk", IFACE));
    assert!(!marker_line("# flea: org.freedesktop.impl.portal.FileChooser=gnome;gtk", IFACE));
    assert!(is_fleas_value("flea"));
    assert!(is_fleas_value("flea;gtk"));
    assert!(!is_fleas_value("fleas;gtk"));
    assert!(!is_fleas_value("gtk;flea"));
}

const IFACE_LINE: &str = "org.freedesktop.impl.portal.FileChooser";

#[test]
fn a_claim_on_no_file_creates_one_holding_only_fleas_line() {
    let (write, line) = claim_plan(None, "/c/portals.conf", false);
    assert_eq!(write, FileWrite::Create(format!("[preferred]\n{}=flea;gtk\n", IFACE_LINE)));
    assert_eq!(line, format!("{}: flea;gtk, written to /c/portals.conf", IFACE_LINE));
}

#[test]
fn a_claim_says_what_it_replaced_and_where_it_wrote() {
    let text = format!("[preferred]\ndefault=gtk\n{}=gnome;gtk\n", IFACE_LINE);
    let (write, line) = claim_plan(Some(&text), "/c/hyprland-portals.conf", true);
    assert_eq!(write, FileWrite::Replace(set_preferred(&text, IFACE, PREFERRED).unwrap()));
    assert_eq!(
        line,
        format!("{}: flea;gtk, written to /c/hyprland-portals.conf, the file xdg-desktop-portal reads on this desktop; it named gnome;gtk before, and the undo below puts that back", IFACE_LINE)
    );
    let (_, line) = claim_plan(Some(BOX_SHAPE), "/c/portals.conf", false);
    assert!(line.ends_with("; every other interface keeps the routing it had"));
    let claimed = set_preferred(BOX_SHAPE, IFACE, PREFERRED).unwrap();
    let (write, line) = claim_plan(Some(&claimed), "/c/portals.conf", false);
    assert_eq!(write, FileWrite::Keep);
    assert_eq!(line, format!("{}: already flea;gtk in /c/portals.conf", IFACE_LINE));
}

#[test]
fn an_undo_puts_back_removes_or_leaves_the_file() {
    let text = format!("[preferred]\ndefault=gtk\n{}=gnome;gtk\n", IFACE_LINE);
    let claimed = set_preferred(&text, IFACE, PREFERRED).unwrap();
    let (write, line) = release_plan(Some(&claimed), "/c/portals.conf", true);
    assert_eq!(write, FileWrite::Replace(text.clone()));
    assert_eq!(line, Some(format!("{}: gnome;gtk put back in /c/portals.conf", IFACE_LINE)));
    let own = set_preferred("", IFACE, PREFERRED).unwrap();
    let (write, line) = release_plan(Some(&own), "/c/portals.conf", true);
    assert_eq!(write, FileWrite::Remove);
    assert_eq!(line, Some(format!("{}: Flea's line removed, and /c/portals.conf held nothing else, so it is gone", IFACE_LINE)));
    let (write, line) = release_plan(Some(&own), "/c/hyprland-portals.conf", false);
    assert_eq!(write, FileWrite::Replace(String::from("[preferred]\n")));
    assert_eq!(line, Some(format!("{}: Flea's line removed from /c/hyprland-portals.conf", IFACE_LINE)));
    assert_eq!(release_plan(Some(&text), "/c/portals.conf", true), (FileWrite::Keep, None));
    assert_eq!(release_plan(None, "/c/portals.conf", true), (FileWrite::Keep, None));
}

#[test]
fn an_undo_with_nothing_to_do_says_so_and_several_lines_stand_one_per_file() {
    assert_eq!(release_summary(&vec![]), format!("{}: nothing to undo, no portal configuration names Flea", IFACE_LINE));
    assert_eq!(release_summary(&vec![String::from("a"), String::from("b")]), "a\nb");
}

#[test]
fn each_half_reports_on_its_own_and_only_a_routing_that_worked_is_followed() {
    let (lines, status, follow) = report_lines(&Ok(String::from("routed")), &Err(String::from("no window rule")));
    assert_eq!(lines, vec![(true, String::from("routed")), (false, String::from("flea: no window rule"))]);
    assert_eq!((status, follow), (1, true));
    let (_, status, follow) = report_lines(&Err(String::from("x")), &Ok(String::from("y")));
    assert_eq!((status, follow), (1, false));
    let (_, status, follow) = report_lines(&Ok(String::from("x")), &Ok(String::from("y")));
    assert_eq!((status, follow), (0, true));
}

#[test]
fn each_named_desktop_gives_its_own_file_in_order() {
    assert_eq!(desktop_candidates("Hyprland"), vec!["hyprland-portals.conf"]);
    assert_eq!(desktop_candidates("GNOME:ubuntu::"), vec!["gnome-portals.conf", "ubuntu-portals.conf"]);
    assert!(desktop_candidates("").is_empty());
    assert_eq!(desktop_candidates(":KDE"), vec!["kde-portals.conf"]);
}

#[test]
fn only_a_desktop_s_own_file_is_a_desktop_file() {
    assert!(is_desktop_file_name("hyprland-portals.conf"));
    assert!(!is_desktop_file_name("portals.conf"));
    assert!(!is_desktop_file_name("hyprland-portals.conf.bak"));
}

#[test]
fn with_no_desktop_named_a_desktop_file_makes_the_plain_one_a_guess() {
    let plain = String::from("/c/xdg-desktop-portal/portals.conf");
    assert_eq!(
        effective_conf(Some(String::from("/c/x/hyprland-portals.conf")), true, &vec![], plain.clone()),
        Ok((String::from("/c/x/hyprland-portals.conf"), true))
    );
    assert_eq!(effective_conf(None, false, &vec![], plain.clone()), Ok((plain.clone(), false)));
    assert_eq!(effective_conf(None, true, &vec![String::from("/a")], plain.clone()), Ok((plain.clone(), false)));
    assert_eq!(
        effective_conf(None, false, &vec![String::from("/a-portals.conf"), String::from("/b-portals.conf")], plain),
        Err(String::from("XDG_CURRENT_DESKTOP is not set, so it is unknown whether /a-portals.conf or /b-portals.conf is the file this desktop reads; run it from inside the desktop session"))
    );
}

#[test]
fn a_claim_reads_back_under_other_groups_and_crlf_lines_and_a_second_finds_nothing() {
    let texts = [
        "[other]\nkey=value\n[preferred]\r\ndefault=hyprland\r\n",
        "[preferred]\ndefault=hyprland",
        "# portals\n[preferred]\ndefault=hyprland\norg.freedesktop.impl.portal.FileChooser=kde\r\n[other]\nx=y\n",
        "",
    ];
    for text in texts {
        let out = set_preferred(text, IFACE, PREFERRED).expect("the claim changes the file");
        assert_eq!(preferred_value(&out, IFACE).as_deref(), Some(PREFERRED), "{:?}", out);
        assert_eq!(set_preferred(&out, IFACE, PREFERRED), None, "{:?}", out);
    }
    assert_eq!(set_preferred(&format!("[preferred]\n{}={}\n", IFACE, PREFERRED), IFACE, PREFERRED), None);
}

#[test]
fn a_claim_leaves_one_note_naming_what_it_replaced_and_drops_a_stale_one() {
    let held = "[other]\nk=v\n[preferred]\ndefault=x\n# flea replaced: org.freedesktop.impl.portal.FileChooser=old\norg.freedesktop.impl.portal.FileChooser=kde\n";
    let out = set_preferred(held, IFACE, PREFERRED).expect("claimed");
    assert_eq!(out.matches(REPLACED).count(), 1, "{:?}", out);
    assert!(out.contains("# flea replaced: org.freedesktop.impl.portal.FileChooser=kde\norg.freedesktop.impl.portal.FileChooser=flea;gtk\n"));
    let stale = "[preferred]\n# flea replaced: org.freedesktop.impl.portal.FileChooser=old\n";
    let out = set_preferred(stale, IFACE, PREFERRED).expect("claimed");
    assert!(!out.contains(REPLACED), "{:?}", out);
    assert_eq!(drop_preferred(&out, IFACE).as_deref(), Some("[preferred]\n"));
}

#[test]
fn a_claim_that_adds_the_line_is_undone_byte_for_byte() {
    let texts = [
        BOX_SHAPE,
        "[preferred]\ndefault=hyprland\n\n[other]\nkey=value\n",
        "# portals\n[other]\nkey=value\n[preferred]\r\ndefault=gtk\r\n",
    ];
    for text in texts {
        let claimed = set_preferred(text, IFACE, PREFERRED).expect("the file gains a line");
        assert_eq!(drop_preferred(&claimed, IFACE).as_deref(), Some(text), "{:?}", claimed);
    }
    let fresh = set_preferred("", IFACE, PREFERRED).expect("a new file");
    assert_eq!(drop_preferred(&fresh, IFACE).as_deref(), Some("[preferred]\n"), "the group it added stays");
}

#[test]
fn a_claim_and_its_undo_leave_other_groups_and_a_padded_heading_alone() {
    let text = "[other]\nx=y\n  [preferred] \ndefault=hyprland;gtk\norg.freedesktop.impl.portal.FileChooser=gnome;gtk\n[elsewhere]\n# flea replaced: org.freedesktop.impl.portal.FileChooser=kde\norg.freedesktop.impl.portal.FileChooser=flea;gtk\n";
    let claimed = set_preferred(text, IFACE, PREFERRED).expect("the value changes");
    assert!(claimed.contains("# flea replaced: org.freedesktop.impl.portal.FileChooser=gnome;gtk\norg.freedesktop.impl.portal.FileChooser=flea;gtk\n[elsewhere]\n"), "{:?}", claimed);
    assert_eq!(preferred_value(&claimed, IFACE).as_deref(), Some(PREFERRED));
    assert_eq!(drop_preferred(&claimed, IFACE).as_deref(), Some(text));
}
