use lib::update::{described, Asking, NOT_DESCRIBED, aur_answer_of, mirrors_answer, AUR_DOWN, AUR_MAX_BYTES, MIRRORS_DOWN};
use lib::update::{
    aur_version, checkupdates_version, from_source, kind_for, owner_from, package_info, unchecked, valid_version, Kind, Report,
    Source, State, AVAILABLE, FAILED, NOTHING_TO_INSTALL,
};
use lib::verdicts::{decide, vercmp_order};
use std::cmp::Ordering;

const OPR_INFO: &str = "Name            : flea
Version         : 0.3.2-1
Description     : Fast, keyboard-first file manager for Omarchy
Architecture    : x86_64
Install Reason  : Explicitly installed
Install Script  : No
Validated By    : Signature
";

const LOCAL_INFO: &str = "Name            : flea
Version         : 0.3.3-1
Validated By    : None
";

fn decided(source: Source) -> Report {
    match source {
        Source::Decided(report) => report,
        other => panic!("a source that still needs vercmp: {:?}", other),
    }
}

#[test]
fn the_owner_is_the_one_package_name_pacman_printed() {
    assert_eq!(owner_from("flea\n"), Some("flea".to_string()));
    assert_eq!(owner_from("flea-bin\n"), Some("flea-bin".to_string()));
    assert_eq!(owner_from(""), None, "no package owns the binary");
    assert_eq!(owner_from("flea\nflea-git\n"), None, "one path has one owner, so two names are not an answer");
    assert_eq!(owner_from("error: No package owns /tmp/flea\n"), None);
}

#[test]
fn package_info_reads_the_version_and_whether_a_signature_validated_it() {
    assert_eq!(package_info(OPR_INFO), (Some("0.3.2-1".to_string()), true));
    assert_eq!(package_info(LOCAL_INFO), (Some("0.3.3-1".to_string()), false));
    assert_eq!(package_info("Validated By    : SHA-256 Sum  Signature\n").1, true);
    assert_eq!(package_info("Validated By    : SHA-256 Sum\n").1, false);
    assert_eq!(package_info("Description     : Signature\nValidated By    : None\n").1, false);
    assert_eq!(package_info(""), (None, false));
}

#[test]
fn the_kind_follows_the_owner_and_only_a_signed_flea_is_opr() {
    assert_eq!(kind_for("flea", true), Kind::Opr);
    assert_eq!(kind_for("flea", false), Kind::Local, "a local makepkg build carries OPR's name and no signature");
    assert_eq!(kind_for("flea-bin", false), Kind::Aur);
    assert_eq!(kind_for("flea-git", false), Kind::Git);
    assert_eq!(kind_for("flea-git", true), Kind::Git);
    assert_eq!(kind_for("my-flea", true), Kind::Local, "a name Flea never shipped under has no known updater");
}

#[test]
fn checkupdates_names_the_new_version_of_the_package_asked_about_and_no_other() {
    let listed = "linux 6.16.8.arch1-1 -> 6.16.9.arch1-1\nflea-bin 0.3.2-1 -> 0.3.9-1\nflea 0.3.2-1 -> 0.3.3-1\n";
    assert_eq!(checkupdates_version(listed, "flea"), Some("0.3.3-1".to_string()));
    assert_eq!(checkupdates_version("linux 6.16.8.arch1-1 -> 6.16.9.arch1-1\n", "flea"), None);
    assert_eq!(checkupdates_version("flea-git 0.3.2-1 -> 0.3.3-1\n", "flea"), None, "a prefix is not the package");
    assert_eq!(checkupdates_version("flea 0.3.2-1 -> 0.3.3-1 [ignored]\n", "flea"), None, "an IgnorePkg line is no offer");
    assert_eq!(checkupdates_version("", "flea"), None);
}

#[test]
fn only_a_strict_pkgver_pkgrel_is_a_version() {
    for good in ["0.3.3-1", "10.20.30-12", "0.0.0-0"] {
        assert!(valid_version(good), "{} is a version", good);
    }
    let bad = ["0.3.3", "0.3-1", "0.3.3.1-1", "v0.3.3-1", "1:0.3.3-1", "0.3.3-1.1", "0.3.3-", "-1", "",
               "0..3-1", "0.3.3-1 ", " 0.3.3-1", "0.3.3-1\n", "0.3.1.r0.g6433131-2", "0.3.3-1;reboot", "0.3.3-1-1",
               "\u{0660}.3.3-1"];
    for version in bad {
        assert!(!valid_version(version), "{:?} must be refused", version);
    }
}

#[test]
fn vercmp_output_reads_as_an_ordering() {
    assert_eq!(vercmp_order("1\n"), Some(Ordering::Greater));
    assert_eq!(vercmp_order("0\n"), Some(Ordering::Equal));
    assert_eq!(vercmp_order("-1\n"), Some(Ordering::Less));
    assert_eq!(vercmp_order(""), None);
    assert_eq!(vercmp_order("usage: vercmp <ver1> <ver2>\n"), None);
}

#[test]
fn a_newer_offer_is_available_and_anything_else_is_current() {
    let installed = Some("0.3.2-1".to_string());
    let newer = decide(Kind::Opr, installed.clone(), "0.3.3-1".to_string(), Some(Ordering::Greater));
    assert_eq!(newer.state, State::Available);
    assert_eq!(newer.line(), "available opr 0.3.2-1 0.3.3-1");
    assert_eq!(newer.status(), AVAILABLE);
    let same = decide(Kind::Aur, installed.clone(), "0.3.2-1".to_string(), Some(Ordering::Equal));
    assert_eq!((same.line(), same.status()), ("current aur 0.3.2-1 0.3.2-1".to_string(), NOTHING_TO_INSTALL));
    let older = decide(Kind::Aur, installed.clone(), "0.3.1-1".to_string(), Some(Ordering::Less));
    assert_eq!(older.state, State::Current, "a mirror behind the installed build offers nothing");
    let unknown = decide(Kind::Opr, installed, "0.3.3-1".to_string(), None);
    assert_eq!((unknown.line(), unknown.status()), ("failed opr 0.3.2-1 0.3.3-1".to_string(), FAILED));
}

#[test]
fn a_source_that_could_not_be_asked_fails_and_one_with_nothing_newer_is_current() {
    let installed = Some("0.3.2-1".to_string());
    let down = decided(from_source(Kind::Opr, installed.clone(), Err("the package mirrors could not be asked for a newer Flea")));
    assert_eq!((down.line(), down.status()), ("failed opr 0.3.2-1 -".to_string(), FAILED));
    let quiet = decided(from_source(Kind::Opr, installed, Ok(None)));
    assert_eq!((quiet.line(), quiet.status()), ("current opr 0.3.2-1 -".to_string(), NOTHING_TO_INSTALL));
    let unreadable = decided(from_source(Kind::Aur, None, Ok(Some("0.3.3-1".to_string()))));
    assert_eq!(unreadable.line(), "failed aur - -", "an installed version that is not one cannot be compared");
    let hostile = decided(from_source(Kind::Aur, Some("0.3.2-1".to_string()), Ok(Some("0.3.3-1 $(reboot)".to_string()))));
    assert_eq!(hostile.line(), "failed aur 0.3.2-1 -", "network text that is not a version never reaches the line");
}

#[test]
fn a_build_no_release_describes_is_unchecked_and_names_its_kind() {
    let rolling = unchecked(Kind::Git, None);
    assert_eq!((rolling.line(), rolling.status()), ("unchecked git - -".to_string(), NOTHING_TO_INSTALL));
    assert_eq!(unchecked(Kind::Local, Some("0.3.3-1".to_string())).line(), "unchecked local 0.3.3-1 -");
    assert_eq!(unchecked(Kind::Unowned, None).line(), "unchecked unowned - -");
}

#[test]
fn a_valid_offer_is_handed_to_vercmp_with_both_versions() {
    match from_source(Kind::Aur, Some("0.3.2-1".to_string()), Ok(Some("0.3.3-1".to_string()))) {
        Source::Compare { kind, installed, have, offer } => {
            assert_eq!(kind, Kind::Aur);
            assert_eq!(installed.as_deref(), Some("0.3.2-1"));
            assert_eq!(have, "0.3.2-1");
            assert_eq!(offer, "0.3.3-1");
        }
        other => panic!("expected a comparison, got {:?}", other),
    }
}

#[test]
fn vercmp_reads_signs_and_refuses_what_i64_cannot_hold() {
    assert_eq!(vercmp_order("+7"), Some(Ordering::Greater));
    assert_eq!(vercmp_order("  -0  "), Some(Ordering::Equal));
    assert_eq!(vercmp_order("-9223372036854775808"), Some(Ordering::Less));
    assert_eq!(vercmp_order("9223372036854775808"), None);
    assert_eq!(vercmp_order("+"), None);
    assert_eq!(vercmp_order("1 1"), None);
}

const AUR_ANSWER: &str = r#"{"resultcount":1,"results":[{"Depends":["qt6-base"],"Description":"Fast, keyboard-first file manager for Omarchy","ID":1,"Name":"flea-bin","NumVotes":0,"PackageBase":"flea-bin","Version":"0.3.4-1"}],"type":"multiinfo","version":5}"#;

#[test]
fn the_aur_answer_names_the_version_of_the_one_package_asked_for() {
    assert_eq!(aur_version(AUR_ANSWER, "flea-bin"), Some("0.3.4-1".to_string()));
    assert_eq!(aur_version(AUR_ANSWER, "flea-git"), None, "a result for another package is no answer");
    let none = r#"{"resultcount":0,"results":[],"type":"multiinfo","version":5}"#;
    assert_eq!(aur_version(none, "flea-bin"), None);
    let refused = r#"{"error":"Incorrect request type specified.","resultcount":0,"results":[],"type":"error","version":5}"#;
    assert_eq!(aur_version(refused, "flea-bin"), None);
    assert_eq!(aur_version("<html>502 Bad Gateway</html>", "flea-bin"), None);
    let numeric = r#"{"results":[{"Name":"flea-bin","Version":3}]}"#;
    assert_eq!(aur_version(numeric, "flea-bin"), None, "a version that is not a string is no answer");
}

#[test]
fn the_aur_answer_is_read_past_whitespace_escapes_and_other_results() {
    let body = " {\n \"results\" : [ {\"Name\":\"flea-git\",\"Version\":\"9.9.9-1\"} , {\"Name\":\"flea\\u002dbin\",\"Version\":\"0.3.5\\u002d2\"} ] }\n";
    assert_eq!(aur_version(body, "flea-bin"), Some("0.3.5-2".to_string()));
    assert_eq!(aur_version(r#"{"results":[{"Name":"flea-bin","Version":"0.3.4-1"}]"#, "flea-bin"), None, "a cut-off answer");
    assert_eq!(aur_version(r#"{"results":{"Name":"flea-bin","Version":"0.3.4-1"}}"#, "flea-bin"), None);
}

#[test]
fn pacman_s_answer_decides_which_source_is_asked() {
    assert_eq!(
        described(None, None),
        Asking::Done(Report { state: State::Unchecked, kind: Kind::Unowned, installed: None, latest: None })
    );
    assert_eq!(
        described(Some("flea"), None),
        Asking::Done(Report { state: State::Failed(NOT_DESCRIBED), kind: Kind::Local, installed: None, latest: None })
    );
    assert_eq!(described(Some("flea"), Some(OPR_INFO)), Asking::Mirrors { installed: Some("0.3.2-1".to_string()) });
    assert_eq!(described(Some("flea-bin"), Some(LOCAL_INFO)), Asking::Aur { installed: Some("0.3.3-1".to_string()) });
    assert_eq!(
        described(Some("flea"), Some(LOCAL_INFO)),
        Asking::Done(Report { state: State::Unchecked, kind: Kind::Local, installed: Some("0.3.3-1".to_string()), latest: None })
    );
    assert_eq!(
        described(Some("flea-bin"), Some("Version         : 0.3.3\n")),
        Asking::Aur { installed: None },
        "a version a comparison cannot use is no installed version"
    );
}

#[test]
fn checkupdates_and_curl_answers_read_as_offers_or_failures() {
    assert_eq!(mirrors_answer(Some((0, "flea 0.3.2-1 -> 0.3.3-1\n")), "flea"), Ok(Some("0.3.3-1".to_string())));
    assert_eq!(mirrors_answer(Some((2, "")), "flea"), Ok(None));
    assert_eq!(mirrors_answer(Some((1, "")), "flea"), Err(MIRRORS_DOWN));
    assert_eq!(mirrors_answer(None, "flea"), Err(MIRRORS_DOWN));
    assert_eq!(aur_answer_of(Some((0, AUR_ANSWER, AUR_ANSWER.len()))), Ok(Some("0.3.4-1".to_string())));
    assert_eq!(aur_answer_of(Some((0, AUR_ANSWER, AUR_MAX_BYTES + 1))), Err(AUR_DOWN));
    assert_eq!(aur_answer_of(Some((22, AUR_ANSWER, 10))), Err(AUR_DOWN));
    assert_eq!(aur_answer_of(Some((0, "{}", 2))), Err(AUR_DOWN));
    assert_eq!(aur_answer_of(None), Err(AUR_DOWN));
}
