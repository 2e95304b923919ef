use lib::collide::{
    already_there, ask, collisions_line, guard, Ask, Collide, ItemIdentity, Place, Policy, Probe, Question,
    ALREADY_THERE, HOLDS_SOURCE, LINKS_HERE, NO_FREE_NAME,
};

fn item(ino: u64) -> ItemIdentity {
    ItemIdentity { dev: 1, ino, size: 5, mtime: 100, mtime_nsec: 0 }
}

fn probe(path: &str, meta: Option<(bool, u32)>, there: Option<ItemIdentity>) -> Probe {
    let dir = std::path::Path::new(path).parent().map(|p| p.to_string_lossy().to_string());
    Probe { path: path.to_string(), meta, dir, there }
}

fn chosen(word: &str, question: Question, dest: &str) -> Policy {
    let id = question.id;
    Ask { word: Some(word.to_string()), id }.policy(Some(question), dest)
}

fn seen_one(id: usize, src: &str, there: ItemIdentity) -> Question {
    Question { id, dest: "/to".to_string(), seen: vec![(src.to_string(), there)] }
}

#[test]
fn the_question_lists_only_sources_whose_name_the_destination_holds() {
    // from/photo.png collides with to/photo.png; from/notes.txt has a free name; from/album collides
    // with to/album; to/local.txt already lives in the destination; from/gone.txt has vanished.
    let probes = vec![
        probe("/d/from/photo.png", Some((false, 0o100644)), Some(item(11))),
        probe("/d/from/notes.txt", Some((false, 0o100644)), None),
        probe("/d/from/album", Some((true, 0o40755)), Some(item(12))),
        probe("/d/to/local.txt", Some((false, 0o100644)), Some(item(13))),
        probe("/d/from/gone.txt", None, None),
    ];
    let (question, shown) = ask(7, "/d/to", Some("/d/to"), &probes);
    let names: Vec<_> = shown.iter().map(|s| (s.name.as_str(), s.dir)).collect();
    assert_eq!(names, vec![("photo.png", false), ("album", true)], "a free name, an item already there and a vanished source never ask");
    assert_eq!(question.seen.len(), 2);
    assert!(question.seen[0].1.same_item(&item(11)));
    assert_eq!(question.seen[0].0, "/d/from/photo.png");
}

#[test]
fn the_choice_word_parses_and_anything_else_refuses() {
    let ask = Ask::parse(r#"{"c":"transfer","dest":"/x","collide":"replace","collideId":7}"#);
    assert_eq!(ask, Ask { word: Some("replace".into()), id: 7 });
    assert_eq!(Ask::parse(r#"{"c":"transfer","dest":"/x"}"#), Ask::default(), "absent is today's transfer");
    assert_eq!(Collide::from_word("overwrite"), Collide::Refuse, "a word this wire does not define can never replace");
    assert_eq!(Collide::from_word("keep"), Collide::Keep);
    assert_eq!(Collide::from_word("skip"), Collide::Skip);
}

#[test]
fn the_answer_names_three_and_counts_every_collision() {
    let probes: Vec<Probe> = ["a", "b", "c", "d", "e"]
        .iter()
        .map(|n| probe(&format!("/from/{n}"), Some((true, 0o40755)), Some(item(1))))
        .collect();
    let (question, shown) = ask(9, "relative/dest", None, &probes);
    assert!(question.seen.is_empty() && shown.is_empty());
    let (question, shown) = ask(9, "/to", Some("/to"), &probes);
    assert_eq!(question.seen.len(), 5);
    assert_eq!(shown.len(), 3);
    let listed: Vec<(String, bool, String)> = shown.iter().map(|s| (s.name.clone(), s.dir, "folder".to_string())).collect();
    let line = collisions_line(9, question.seen.len(), &listed);
    assert!(line.starts_with(r#"{"t":"collisions","id":9,"total":5,"names":[{"n":"a","d":true,"i":"folder"},"#), "{}", line);
    assert_eq!(line.matches(r#""n":"#).count(), 3, "the card lists three and says how many more");
    assert_eq!(collisions_line(10, 0, &[]), r#"{"t":"collisions","id":10,"total":0,"names":[]}"#);
}

#[test]
fn a_source_named_twice_is_seen_once_with_its_latest_item() {
    let probes = vec![
        probe("/from/a.png", Some((false, 1)), Some(item(1))),
        probe("/from//a.png", Some((false, 1)), Some(item(2))),
        probe("relative.png", Some((false, 1)), Some(item(3))),
    ];
    let (question, shown) = ask(1, "/to", Some("/to"), &probes);
    assert_eq!(question.seen.len(), 1);
    assert_eq!(question.seen[0], ("/from/a.png".to_string(), item(2)));
    assert_eq!(shown.len(), 1);
}

#[test]
fn the_choice_covers_only_the_question_it_names_about_the_same_destination() {
    let other = Ask { word: Some("replace".into()), id: 4 }.policy(Some(seen_one(3, "/from/a", item(1))), "/to");
    assert!(other.seen.is_empty());
    let same = Ask { word: Some("replace".into()), id: 3 }.policy(Some(seen_one(3, "/from/a", item(1))), "/to/");
    assert_eq!(same.seen.len(), 1, "a trailing separator is the same destination");
    let moved = Ask { word: Some("replace".into()), id: 3 }.policy(Some(seen_one(3, "/from/a", item(1))), "/elsewhere");
    assert!(moved.seen.is_empty());
    let unnamed = Ask { word: Some("replace".into()), id: 0 }.policy(Some(seen_one(0, "/from/a", item(1))), "/to");
    assert!(unnamed.seen.is_empty(), "id 0 names no question");
}

#[test]
fn each_choice_places_the_item_the_question_saw() {
    let dst = || "/to/a".to_string();
    let keep = chosen("keep", seen_one(1, "/from/a", item(1)), "/to");
    assert_eq!(
        keep.place("/from/a", dst(), false, false, Some(item(1)), Some("/to/a copy".into()), None),
        Place::Land { to: "/to/a copy".into(), replace: false }
    );
    assert_eq!(
        keep.place("/from/a", dst(), false, false, Some(item(1)), None, None),
        Place::Refuse(NO_FREE_NAME.into())
    );
    let skip = chosen("skip", seen_one(1, "/from/a", item(1)), "/to");
    assert!(skip.skips("/from/a"));
    assert!(!skip.skips("/from/b"));
    assert_eq!(skip.place("/from/a", dst(), false, false, Some(item(1)), None, None), Place::Skip);
    let replace = chosen("replace", seen_one(1, "/from/a", item(1)), "/to");
    assert_eq!(
        replace.place("/from/a", dst(), false, false, Some(item(1)), None, None),
        Place::Land { to: dst(), replace: true }
    );
    assert_eq!(
        replace.place("/from/a", dst(), false, false, Some(item(1)), None, Some(HOLDS_SOURCE)),
        Place::Refuse(HOLDS_SOURCE.into())
    );
    assert_eq!(
        replace.place("/from/a", dst(), false, false, Some(item(2)), None, None),
        Place::Land { to: dst(), replace: false },
        "a different item under the name is left to the exclusive create"
    );
    assert_eq!(
        replace.place("/from/a", dst(), false, false, None, None, None),
        Place::Land { to: dst(), replace: false },
        "nothing to trash, so the item lands under its own name"
    );
    let refuse = chosen("refuse", seen_one(1, "/from/a", item(1)), "/to");
    assert_eq!(refuse.place("/from/a", dst(), false, false, Some(item(1)), None, None), Place::Land { to: dst(), replace: false });
}

#[test]
fn a_copy_into_its_own_folder_keeps_both_and_a_move_onto_itself_does_nothing() {
    let refuse = Ask { word: Some("refuse".into()), id: 0 }.policy(None, "/d");
    assert_eq!(
        refuse.place("/d/photo.png", "/d/photo.png".into(), true, false, Some(item(1)), Some("/d/photo copy.png".into()), None),
        Place::Land { to: "/d/photo copy.png".into(), replace: false }
    );
    assert_eq!(refuse.place("/d/photo.png", "/d/photo.png".into(), true, true, Some(item(1)), None, None), Place::Skip);
    let older = Policy::default();
    assert_eq!(
        older.place("/d/photo.png", "/d/photo.png".into(), true, false, Some(item(1)), None, None),
        Place::Refuse(ALREADY_THERE.into()),
        "an older client's request is refused exactly as before"
    );
    assert_eq!(older.place("/x/a", "/d/a".into(), false, false, Some(item(1)), None, None), Place::Land { to: "/d/a".into(), replace: false });
}

#[test]
fn only_a_replace_keeps_the_batch() {
    let paths = vec!["/a".to_string(), "/b".to_string()];
    let kept = chosen("replace", seen_one(1, "/a", item(1)), "/to").for_batch(&paths);
    assert_eq!(kept.batch, paths);
    let dropped = chosen("keep", seen_one(1, "/a", item(1)), "/to").for_batch(&paths);
    assert!(dropped.batch.is_empty());
}

#[test]
fn a_trash_that_would_take_a_source_or_a_link_target_is_refused() {
    let sources = vec!["/home/me/e/x/new.txt".to_string()];
    assert_eq!(guard(&sources, "/home/me/e/x", &[]), Some(HOLDS_SOURCE));
    assert_eq!(guard(&sources, "/home/me/e", &[]), Some(HOLDS_SOURCE));
    assert_eq!(guard(&sources, "/home/me/e/xy", &[]), None, "a sibling whose name merely starts the same holds nothing");
    let links = vec!["/to/report.pdf".to_string()];
    assert_eq!(guard(&sources, "/to/report.pdf", &links), Some(LINKS_HERE));
    assert_eq!(guard(&[], "/to/other.pdf", &links), None);
}

#[test]
fn an_item_is_already_there_by_its_resolved_folder() {
    assert!(already_there("/d/a.png", "a.png", "/d/a.png", "/d", Some("/d")));
    assert!(already_there("/link/a.png", "a.png", "/d/a.png", "/real", Some("/real")), "through a symlinked folder");
    assert!(!already_there("/e/a.png", "a.png", "/d/a.png", "/d", Some("/e")));
    assert!(already_there("/d//a.png", "a.png", "/d/a.png", "/x", None), "the same path written twice over");
}

#[test]
fn when_trash_refuses_nothing_is_replaced_and_nothing_is_journaled() {
    assert_eq!(lib::collide::trash_took(1, 0), Err(lib::collide::TRASH_REFUSED));
    assert_eq!(lib::collide::trash_took(0, 2), Err(lib::collide::TRASH_REFUSED));
    assert_eq!(lib::collide::trash_took(0, 1), Ok(()));
}

#[test]
fn a_put_back_that_fails_keeps_the_step_for_undo_and_says_the_old_item_is_in_trash() {
    assert!(lib::collide::puts_back(true, 1, 0), "nothing took the name and only the trash step is journaled");
    let (drop_step, msg) = lib::collide::after_put_back(&Err(String::from("gio answered 1")), "permission denied");
    assert!(!drop_step, "undo can still restore it");
    assert!(msg.starts_with("permission denied; the item it replaced is still in Trash"), "{}", msg);
    assert_eq!(msg, "permission denied; the item it replaced is still in Trash (gio answered 1)");
}

#[test]
fn a_put_back_that_works_leaves_undo_nothing_and_a_cancel_keeps_its_word() {
    assert_eq!(lib::collide::after_put_back(&Ok(()), "permission denied"), (true, String::from("permission denied")));
    assert_eq!(lib::collide::after_put_back(&Err(String::from("x")), lib::collide::CANCELLED), (false, String::from("cancelled")));
    assert!(!lib::collide::puts_back(false, 1, 0), "something took the name");
    assert!(!lib::collide::puts_back(true, 2, 0), "the landing journaled a step of its own");
}

#[test]
fn replace_refuses_an_item_that_holds_the_one_being_moved_in() {
    // d/x/x moved into d lands on the name x, which d/x already holds: the folder it would replace holds it.
    let sources = vec![String::from("/d/x/x")];
    assert_eq!(guard(&sources, "/d/x", &[]), Some(HOLDS_SOURCE));
}
