// Names a paste or a drop would land on: the question asked first, and the one choice the transfer
// carries.
use crate::json::{escape, escaped, field_str, field_usize, str_field, usize_field};
use crate::paths::{file_name, file_name_of, is_same_path, is_within, join, joined, same_path, within};
use crate::text::{chars_of, decimal, push_decimal, push_str};
use vstd::prelude::*;

verus! {

/// The card lists this many names and says how many more there are, so the answer never carries more.
pub const SHOWN: usize = 3;

pub const ALREADY_THERE: &'static str = "already exists";

pub const TRASH_REFUSED: &'static str = "the item already there could not be moved to Trash, so nothing was replaced";

pub const HOLDS_SOURCE: &'static str = "the item already there holds the one being moved in, so it was not replaced";

pub const LINKS_HERE: &'static str = "the incoming link points at the item already there, so it was not replaced";

pub const NO_FREE_NAME: &'static str = "every copy name for this item is already taken";

/// The operator's one answer, for every name the question listed.
#[derive(Clone, Copy, Debug, PartialEq, Eq, Structural)]
pub enum Collide {
    Refuse,
    Keep,
    Replace,
    Skip,
}

/// Anything that is not one of the three choices refuses, so a malformed word can never replace.
pub open spec fn collide_of(word: Seq<char>) -> Collide {
    if word == "keep"@ {
        Collide::Keep
    } else if word == "replace"@ {
        Collide::Replace
    } else if word == "skip"@ {
        Collide::Skip
    } else {
        Collide::Refuse
    }
}

fn is_word(v: &Vec<char>, w: &str) -> (r: bool)
    ensures
        r == (v@ == w@),
{
    let b = chars_of(w);
    assert(v@.subrange(0, v.len() as int) =~= v@);
    crate::text::range_eq(v, 0, v.len(), &b)
}

impl Collide {
    pub fn from_word(word: &str) -> (c: Collide)
        ensures
            c == collide_of(word@),
    {
        let v = chars_of(word);
        if is_word(&v, "keep") {
            Collide::Keep
        } else if is_word(&v, "replace") {
            Collide::Replace
        } else if is_word(&v, "skip") {
            Collide::Skip
        } else {
            Collide::Refuse
        }
    }
}

/// What tells one item from another under the same name: where it lives on disk, and its size and
/// modification time when it was looked at.
#[derive(Clone, Copy, Debug, PartialEq, Eq, Structural)]
pub struct ItemIdentity {
    pub dev: u64,
    pub ino: u64,
    pub size: u64,
    pub mtime: i64,
    pub mtime_nsec: i64,
}

impl ItemIdentity {
    pub fn same_item(&self, other: &ItemIdentity) -> (r: bool)
        ensures
            r == (*self == *other),
    {
        self.dev == other.dev && self.ino == other.ino && self.size == other.size && self.mtime == other.mtime
            && self.mtime_nsec == other.mtime_nsec
    }
}

/// The sources a question saw collide, each with the item that held its name at that moment.
pub open spec fn seen_view(seen: Seq<(String, ItemIdentity)>) -> Seq<(Seq<char>, ItemIdentity)> {
    seen.map_values(|e: (String, ItemIdentity)| (e.0@, e.1))
}

/// Where `src` stands among the seen sources, or their count when it is not among them.
pub open spec fn seen_index(seen: Seq<(Seq<char>, ItemIdentity)>, src: Seq<char>) -> nat
    decreases seen.len(),
{
    if seen.len() == 0 {
        0
    } else if same_path(seen[0].0, src) {
        0
    } else {
        1 + seen_index(seen.drop_first(), src)
    }
}

/// The item the question saw under `src`'s name, if it saw `src` collide.
pub open spec fn seen_get(seen: Seq<(Seq<char>, ItemIdentity)>, src: Seq<char>) -> Option<ItemIdentity> {
    let k = seen_index(seen, src);
    if k < seen.len() {
        Some(seen[k as int].1)
    } else {
        None
    }
}

proof fn lemma_seen_index(seen: Seq<(Seq<char>, ItemIdentity)>, src: Seq<char>, k: int)
    requires
        0 <= k <= seen.len(),
        forall|j: int| 0 <= j < k ==> !same_path(#[trigger] seen[j].0, src),
        k == seen.len() || same_path(seen[k].0, src),
    ensures
        seen_index(seen, src) == k,
    decreases k,
{
    if k > 0 {
        let d = seen.drop_first();
        assert forall|j: int| 0 <= j < k - 1 implies !same_path(#[trigger] d[j].0, src) by {
            assert(d[j] == seen[j + 1]);
        }
        lemma_seen_index(d, src, k - 1);
    }
}

/// Where `src` stands among the seen sources.
fn find_seen(seen: &Vec<(String, ItemIdentity)>, src: &str) -> (k: usize)
    ensures
        k == seen_index(seen_view(seen@), src@),
        k <= seen.len(),
{
    let ghost sv = seen_view(seen@);
    let mut k: usize = 0;
    while k < seen.len()
        invariant
            k <= seen.len(),
            sv == seen_view(seen@),
            forall|j: int| 0 <= j < k ==> !same_path(#[trigger] sv[j].0, src@),
        decreases seen.len() - k,
    {
        if is_same_path(seen[k].0.as_str(), src) {
            proof {
                lemma_seen_index(sv, src@, k as int);
            }
            return k;
        }
        k = k + 1;
    }
    proof {
        lemma_seen_index(sv, src@, k as int);
    }
    k
}

/// What the question saw: which question it was, the destination it asked about, and each colliding
/// source with the item that held its name in the destination at that moment.
pub struct Question {
    pub id: usize,
    pub dest: String,
    pub seen: Vec<(String, ItemIdentity)>,
}

/// The transfer request's two fields, before the question they name has been looked up.
#[derive(Clone, Debug, Default, PartialEq)]
pub struct Ask {
    pub word: Option<String>,
    pub id: usize,
}

/// Whether a request answers a question: it names it, and the question was asked about the same
/// destination.
pub open spec fn answers(ask_id: usize, question: Question, dest: Seq<char>) -> bool {
    ask_id != 0 && question.id == ask_id && same_path(question.dest@, dest)
}

/// No choice at all is today's transfer exactly; any choice also turns on the same-folder rule.
#[derive(Default)]
pub struct Policy {
    pub choice: Option<Collide>,
    pub seen: Vec<(String, ItemIdentity)>,
    pub batch: Vec<String>,
}

pub open spec fn choice_of(word: Option<String>) -> Option<Collide> {
    match word {
        Some(w) => Some(collide_of(w@)),
        None => None,
    }
}

impl Ask {
    /// Sample input: {"c":"transfer","op":"copy","paths":["/home/gm/a.png"],"dest":"/home/gm/Pictures","collide":"replace","collideId":7}
    pub fn parse(line: &str) -> (a: Ask)
        ensures
            crate::chooser::opt_view(a.word) == str_field(line@, "collide"@),
            a.id == (match usize_field(line@, "collideId"@) {
                Some(id) => id,
                None => 0,
            }),
    {
        let word = field_str(line, "collide");
        let id: usize = match field_usize(line, "collideId") {
            Some(id) => id,
            None => 0,
        };
        Ask { word, id }
    }

    /// The choice covers only the question this request names, asked about this same destination.
    pub fn policy(self, question: Option<Question>, dest: &str) -> (p: Policy)
        ensures
            p.choice == choice_of(self.word),
            seen_view(p.seen@) == (match question {
                Some(q) => if answers(self.id, q, dest@) {
                    seen_view(q.seen@)
                } else {
                    Seq::empty()
                },
                None => Seq::empty(),
            }),
            p.batch@.len() == 0,
    {
        let choice = match &self.word {
            Some(w) => Some(Collide::from_word(w.as_str())),
            None => None,
        };
        let seen = match question {
            Some(q) => if self.id != 0 && q.id == self.id && is_same_path(q.dest.as_str(), dest) {
                q.seen
            } else {
                Vec::new()
            },
            None => Vec::new(),
        };
        proof {
            if seen@.len() == 0 {
                assert(seen_view(seen@) =~= Seq::<(Seq<char>, ItemIdentity)>::empty());
            }
        }
        Policy { choice, seen, batch: Vec::new() }
    }
}

/// Where one item goes; replace says what holds that path now goes to Trash first.
#[derive(Debug, PartialEq)]
pub enum Place {
    Land { to: String, replace: bool },
    Skip,
    Refuse(String),
}

/// A place as the contracts read it: Land is 0 with its path and replace, Skip is 1, Refuse is 2 with
/// its reason.
pub open spec fn place_view(p: Place) -> (int, Seq<char>, bool) {
    match p {
        Place::Land { to, replace } => (0, to@, replace),
        Place::Skip => (1, Seq::empty(), false),
        Place::Refuse(why) => (2, why@, false),
    }
}

/// Keep both lands under the next free copy name, or is refused when there is none.
pub open spec fn kept(copy_name: Option<Seq<char>>) -> (int, Seq<char>, bool) {
    match copy_name {
        Some(free) => (0, free, false),
        None => (2, NO_FREE_NAME@, false),
    }
}

/// Where one item goes. `here` says the item already lives in the destination; `current` is the item
/// now at `dst`, if it could be looked at; `copy_name` the next free copy name beside `dst`; `hazard`
/// what a trash of `dst` would take with it. A name the question did not see is left to the exclusive
/// create, which refuses it.
pub open spec fn placed(
    choice: Option<Collide>,
    seen: Seq<(Seq<char>, ItemIdentity)>,
    src: Seq<char>,
    dst: Seq<char>,
    here: bool,
    moving: bool,
    current: Option<ItemIdentity>,
    copy_name: Option<Seq<char>>,
    hazard: Option<Seq<char>>,
) -> (int, Seq<char>, bool) {
    match choice {
        None => if here {
            (2, ALREADY_THERE@, false)
        } else {
            (0, dst, false)
        },
        Some(c) => if here {
            if moving {
                (1, Seq::empty(), false)
            } else {
                kept(copy_name)
            }
        } else {
            match current {
                None => (0, dst, false),
                Some(now) => if seen_get(seen, src) != Some(now) {
                    (0, dst, false)
                } else {
                    match c {
                        Collide::Refuse => (0, dst, false),
                        Collide::Keep => kept(copy_name),
                        Collide::Skip => (1, Seq::empty(), false),
                        Collide::Replace => match hazard {
                            Some(why) => (2, why, false),
                            None => (0, dst, true),
                        },
                    }
                }
            }
        },
    }
}

fn keep_both(copy_name: Option<String>) -> (p: Place)
    ensures
        place_view(p) == kept(crate::chooser::opt_view(copy_name)),
{
    match copy_name {
        Some(free) => Place::Land { to: free, replace: false },
        None => Place::Refuse(NO_FREE_NAME.to_string()),
    }
}

fn copy_strings(v: &[String]) -> (r: Vec<String>)
    ensures
        r@ == v@,
{
    let mut r: Vec<String> = Vec::new();
    let mut k: usize = 0;
    while k < v.len()
        invariant
            k <= v.len(),
            r@ == v@.take(k as int),
        decreases v.len() - k,
    {
        r.push(v[k].clone());
        assert(r@ =~= v@.take(k + 1));
        k = k + 1;
    }
    assert(v@.take(k as int) =~= v@);
    r
}

impl Policy {
    /// Replace checks each item against the whole batch, so the batch is kept only when there is a
    /// Replace to check.
    pub fn for_batch(self, paths: &[String]) -> (p: Policy)
        ensures
            p.choice == self.choice,
            seen_view(p.seen@) == seen_view(self.seen@),
            p.batch@ == (if self.choice == Some(Collide::Replace) {
                paths@
            } else {
                self.batch@
            }),
    {
        let mut me = self;
        if me.choice == Some(Collide::Replace) {
            me.batch = copy_strings(paths);
        }
        me
    }

    /// A skipped item copies nothing, so the sweep leaves its bytes out of the batch's total.
    pub fn skips(&self, src: &str) -> (r: bool)
        ensures
            r == (self.choice == Some(Collide::Skip) && seen_get(seen_view(self.seen@), src@) is Some),
    {
        if self.choice != Some(Collide::Skip) {
            return false;
        }
        find_seen(&self.seen, src) < self.seen.len()
    }

    /// Where one item goes; see `placed`.
    pub fn place(
        &self,
        src: &str,
        dst: String,
        here: bool,
        moving: bool,
        current: Option<ItemIdentity>,
        copy_name: Option<String>,
        hazard: Option<&str>,
    ) -> (p: Place)
        ensures
            place_view(p) == placed(
                self.choice,
                seen_view(self.seen@),
                src@,
                dst@,
                here,
                moving,
                current,
                crate::chooser::opt_view(copy_name),
                crate::env::opt_str_view(hazard),
            ),
    {
        let choice = match self.choice {
            None => {
                return if here {
                    Place::Refuse(ALREADY_THERE.to_string())
                } else {
                    Place::Land { to: dst, replace: false }
                };
            },
            Some(c) => c,
        };
        if here {
            return if moving {
                Place::Skip
            } else {
                keep_both(copy_name)
            };
        }
        let now = match current {
            Some(now) => now,
            None => return Place::Land { to: dst, replace: false },
        };
        let k = find_seen(&self.seen, src);
        assert(k < self.seen.len() ==> seen_view(self.seen@)[k as int].1 == self.seen@[k as int].1);
        if !(k < self.seen.len() && self.seen[k].1.same_item(&now)) {
            return Place::Land { to: dst, replace: false };
        }
        match choice {
            Collide::Refuse => Place::Land { to: dst, replace: false },
            Collide::Keep => keep_both(copy_name),
            Collide::Skip => Place::Skip,
            Collide::Replace => match hazard {
                Some(why) => Place::Refuse(why.to_string()),
                None => Place::Land { to: dst, replace: true },
            },
        }
    }
}

/// Only the item the question saw is ever replaced: a replace needs the Replace choice, an item not
/// already in the destination, the very item the question saw still under its name, and nothing a
/// trash of it would take with it; and it lands on that name.
pub proof fn only_the_item_asked_about_is_replaced(
    choice: Option<Collide>,
    seen: Seq<(Seq<char>, ItemIdentity)>,
    src: Seq<char>,
    dst: Seq<char>,
    here: bool,
    moving: bool,
    current: Option<ItemIdentity>,
    copy_name: Option<Seq<char>>,
    hazard: Option<Seq<char>>,
)
    requires
        placed(choice, seen, src, dst, here, moving, current, copy_name, hazard).2,
    ensures
        choice == Some(Collide::Replace),
        !here,
        current is Some,
        seen_get(seen, src) == current,
        hazard is None,
        placed(choice, seen, src, dst, here, moving, current, copy_name, hazard).0 == 0,
        placed(choice, seen, src, dst, here, moving, current, copy_name, hazard).1 == dst,
{
}

/// A transfer whose request does not answer the question it names, or that saw nothing, replaces
/// nothing and skips nothing that collides after the question: whatever the choice, a name the
/// question did not see lands only through the exclusive create.
pub proof fn what_was_not_asked_about_is_never_replaced(
    choice: Option<Collide>,
    src: Seq<char>,
    dst: Seq<char>,
    here: bool,
    moving: bool,
    current: Option<ItemIdentity>,
    copy_name: Option<Seq<char>>,
    hazard: Option<Seq<char>>,
)
    ensures
        !placed(choice, Seq::empty(), src, dst, here, moving, current, copy_name, hazard).2,
        !here && choice is Some ==> placed(choice, Seq::empty(), src, dst, here, moving, current, copy_name, hazard)
            == (0int, dst, false),
{
}

/// What a trash of the name `there` (its folder resolved) would take with it: a source of the batch,
/// when `there` is that source or one of the folders above it, or the item an incoming link resolves
/// to, now or once it lands.
pub open spec fn hazard_of(resolved: Seq<String>, there: Seq<char>, links: Seq<String>) -> Option<Seq<char>> {
    if exists|i: int| 0 <= i < resolved.len() && within(#[trigger] resolved[i]@, there) {
        Some(HOLDS_SOURCE@)
    } else if exists|i: int| 0 <= i < links.len() && within(#[trigger] links[i]@, there) {
        Some(LINKS_HERE@)
    } else {
        None
    }
}

fn any_within(paths: &[String], there: &str) -> (r: bool)
    ensures
        r == exists|i: int| 0 <= i < paths@.len() && within(#[trigger] paths@[i]@, there@),
{
    let mut k: usize = 0;
    while k < paths.len()
        invariant
            k <= paths.len(),
            forall|j: int| 0 <= j < k ==> !within(#[trigger] paths@[j]@, there@),
        decreases paths.len() - k,
    {
        if is_within(paths[k].as_str(), there) {
            return true;
        }
        k = k + 1;
    }
    false
}

/// `resolved` holds each source of the batch with its folder resolved; `links` where an incoming link
/// resolves to now and where it would once it lands, each as far as it resolves.
pub fn guard(resolved: &[String], there: &str, links: &[String]) -> (r: Option<&'static str>)
    ensures
        crate::env::opt_str_view(r) == hazard_of(resolved@, there@, links@),
{
    if any_within(resolved, there) {
        return Some(HOLDS_SOURCE);
    }
    if any_within(links, there) {
        return Some(LINKS_HERE);
    }
    None
}

/// Whether the item already lives in the destination: its name there is the item itself, through a
/// symlinked folder too. `dir` is the folder `src` is in, resolved where it resolves, or None when
/// `src` has no folder.
pub open spec fn is_there(
    src: Seq<char>,
    name: Seq<char>,
    dst: Seq<char>,
    dest_real: Seq<char>,
    dir: Option<Seq<char>>,
) -> bool {
    let here = match dir {
        Some(d) => joined(d, name),
        None => src,
    };
    same_path(dst, src) || same_path(joined(dest_real, name), here)
}

pub fn already_there(src: &str, name: &str, dst: &str, dest_real: &str, dir: Option<&str>) -> (r: bool)
    ensures
        r == is_there(src@, name@, dst@, dest_real@, crate::env::opt_str_view(dir)),
{
    if is_same_path(dst, src) {
        return true;
    }
    let landed = join(dest_real, name);
    match dir {
        Some(d) => {
            let here = join(d, name);
            is_same_path(landed.as_str(), here.as_str())
        },
        None => is_same_path(landed.as_str(), src),
    }
}

/// What was learned of one source before the question: its kind and mode if it is there, the folder it
/// is in (resolved where it resolves), and the item that holds its name in the destination, if any.
pub struct Probe {
    pub path: String,
    pub meta: Option<(bool, u32)>,
    pub dir: Option<String>,
    pub there: Option<ItemIdentity>,
}

/// One colliding source as the card draws it: its name, and the kind its mark is chosen from.
pub struct Shown {
    pub name: String,
    pub dir: bool,
    pub mode: u32,
}

pub open spec fn shown_view(shown: Seq<Shown>) -> Seq<(Seq<char>, bool, u32)> {
    shown.map_values(|s: Shown| (s.name@, s.dir, s.mode))
}

/// The question after one more source: a source that is not absolute, has no name, is gone, already
/// lives in the destination or whose name is free there is left out; a collision is recorded, and the
/// first few are shown.
pub open spec fn ask_step(
    dest: Seq<char>,
    dest_real: Seq<char>,
    acc: (Seq<(Seq<char>, ItemIdentity)>, Seq<(Seq<char>, bool, u32)>),
    probe: Probe,
) -> (Seq<(Seq<char>, ItemIdentity)>, Seq<(Seq<char>, bool, u32)>) {
    let src = probe.path@;
    if !(src.len() > 0 && src[0] == '/') {
        acc
    } else {
        match (file_name(src), probe.meta) {
            (Some(name), Some((dir, mode))) => {
                let dst = joined(dest, name);
                if is_there(src, name, dst, dest_real, crate::chooser::opt_view(probe.dir)) {
                    acc
                } else {
                    match probe.there {
                        None => acc,
                        Some(there) => {
                            let k = seen_index(acc.0, src);
                            if k < acc.0.len() {
                                (acc.0.update(k as int, (acc.0[k as int].0, there)), acc.1)
                            } else {
                                (acc.0.push((src, there)), if acc.1.len() < SHOWN {
                                    acc.1.push((name, dir, mode))
                                } else {
                                    acc.1
                                })
                            }
                        },
                    }
                }
            },
            _ => acc,
        }
    }
}

/// The question over the first `n` sources.
pub open spec fn asked(dest: Seq<char>, dest_real: Seq<char>, probes: Seq<Probe>, n: nat) -> (
    Seq<(Seq<char>, ItemIdentity)>,
    Seq<(Seq<char>, bool, u32)>,
)
    decreases n,
{
    if n == 0 {
        (Seq::empty(), Seq::empty())
    } else {
        ask_step(dest, dest_real, asked(dest, dest_real, probes, (n - 1) as nat), probes[n - 1])
    }
}

/// The question itself, read-only: which sources would land on a name the destination already holds.
/// `dest_real` is the destination resolved where it resolves, or None when it cannot take a transfer:
/// an unusable destination asks nothing, and the transfer that follows answers its own error.
pub fn ask(id: usize, dest: &str, dest_real: Option<&str>, probes: &[Probe]) -> (r: (Question, Vec<Shown>))
    ensures
        r.0.id == id,
        r.0.dest@ == dest@,
        (seen_view(r.0.seen@), shown_view(r.1@)) == (match dest_real {
            Some(home) => asked(dest@, home@, probes@, probes@.len()),
            None => (Seq::empty(), Seq::empty()),
        }),
{
    let mut seen: Vec<(String, ItemIdentity)> = Vec::new();
    let mut shown: Vec<Shown> = Vec::new();
    let mut dest_text = String::new();
    push_str(&mut dest_text, dest);
    assert(Seq::<char>::empty() + dest@ =~= dest@);
    let home = match dest_real {
        Some(home) => home,
        None => {
            assert(seen_view(seen@) =~= Seq::<(Seq<char>, ItemIdentity)>::empty());
            assert(shown_view(shown@) =~= Seq::<(Seq<char>, bool, u32)>::empty());
            return (Question { id, dest: dest_text, seen }, shown);
        },
    };
    let mut i: usize = 0;
    assert(seen_view(seen@) =~= Seq::<(Seq<char>, ItemIdentity)>::empty());
    assert(shown_view(shown@) =~= Seq::<(Seq<char>, bool, u32)>::empty());
    while i < probes.len()
        invariant
            i <= probes.len(),
            dest_text@ == dest@,
            (seen_view(seen@), shown_view(shown@)) == asked(dest@, home@, probes@, i as nat),
        decreases probes.len() - i,
    {
        let probe = &probes[i];
        let src = probe.path.as_str();
        let ghost acc = (seen_view(seen@), shown_view(shown@));
        let ghost want = ask_step(dest@, home@, acc, probes@[i as int]);
        let v = chars_of(src);
        if v.len() > 0 && v[0] == '/' {
            match (file_name_of(src), probe.meta) {
                (Some(name), Some((is_dir, mode))) => {
                    let dst = join(dest, name.as_str());
                    let dir = match &probe.dir {
                        Some(d) => Some(d.as_str()),
                        None => None,
                    };
                    if !already_there(src, name.as_str(), dst.as_str(), home, dir) {
                        match probe.there {
                            Some(there) => {
                                let k = find_seen(&seen, src);
                                if k < seen.len() {
                                    let key = seen[k].0.clone();
                                    seen.set(k, (key, there));
                                    assert(seen_view(seen@) =~= acc.0.update(k as int, (acc.0[k as int].0, there)));
                                } else {
                                    let mut key = String::new();
                                    push_str(&mut key, src);
                                    assert(Seq::<char>::empty() + src@ =~= src@);
                                    seen.push((key, there));
                                    assert(seen_view(seen@) =~= acc.0.push((src@, there)));
                                    if shown.len() < SHOWN {
                                        shown.push(Shown { name, dir: is_dir, mode });
                                        assert(shown_view(shown@) =~= acc.1.push((name@, is_dir, mode)));
                                    }
                                }
                            },
                            None => {},
                        }
                    }
                    assert((seen_view(seen@), shown_view(shown@)) == want);
                },
                _ => {
                    assert((seen_view(seen@), shown_view(shown@)) == want);
                },
            }
        }
        assert((seen_view(seen@), shown_view(shown@)) == want);
        i = i + 1;
    }
    (Question { id, dest: dest_text, seen }, shown)
}

/// The shown names as the answer lists them, each with its icon.
pub open spec fn names_text(shown: Seq<(String, bool, String)>) -> Seq<char>
    decreases shown.len(),
{
    if shown.len() == 0 {
        Seq::empty()
    } else {
        let s = shown.last();
        let entry = "{\"n\":\""@ + escaped(s.0@) + "\",\"d\":"@ + (if s.1 {
            "true"@
        } else {
            "false"@
        }) + ",\"i\":\""@ + escaped(s.2@) + "\"}"@;
        if shown.len() == 1 {
            entry
        } else {
            names_text(shown.drop_last()) + ","@ + entry
        }
    }
}

pub open spec fn collisions_text(id: usize, total: usize, shown: Seq<(String, bool, String)>) -> Seq<char> {
    "{\"t\":\"collisions\",\"id\":"@ + decimal(id as nat) + ",\"total\":"@ + decimal(total as nat)
        + ",\"names\":["@ + names_text(shown) + "]}"@
}

/// Sample output: {"t":"collisions","id":7,"total":1,"names":[{"n":"a.png","d":false,"i":"image-x-generic"}]}
/// Each shown name comes with whether it is a folder and the icon its mark is drawn with.
pub fn collisions_line(id: usize, total: usize, shown: &[(String, bool, String)]) -> (r: String)
    ensures
        r@ == collisions_text(id, total, shown@),
{
    let mut out = String::new();
    push_str(&mut out, "{\"t\":\"collisions\",\"id\":");
    push_decimal(&mut out, id as u64);
    push_str(&mut out, ",\"total\":");
    push_decimal(&mut out, total as u64);
    push_str(&mut out, ",\"names\":[");
    let ghost start = out@;
    let mut k: usize = 0;
    assert(out@ =~= start + names_text(shown@.take(0)));
    while k < shown.len()
        invariant
            k <= shown.len(),
            out@ == start + names_text(shown@.take(k as int)),
        decreases shown.len() - k,
    {
        assert(shown@.take(k + 1).drop_last() =~= shown@.take(k as int));
        assert(shown@.take(k + 1).last() == shown@[k as int]);
        if k > 0 {
            push_str(&mut out, ",");
        }
        push_str(&mut out, "{\"n\":\"");
        let n = escape(shown[k].0.as_str());
        push_str(&mut out, n.as_str());
        push_str(&mut out, "\",\"d\":");
        if shown[k].1 {
            push_str(&mut out, "true");
        } else {
            push_str(&mut out, "false");
        }
        push_str(&mut out, ",\"i\":\"");
        let icon = escape(shown[k].2.as_str());
        push_str(&mut out, icon.as_str());
        push_str(&mut out, "\"}");
        assert(out@ =~= start + names_text(shown@.take(k + 1)));
        k = k + 1;
    }
    assert(shown@.take(k as int) =~= shown@);
    push_str(&mut out, "]}");
    out
}


/// The word a cancelled transfer's error carries, which is what counts it as cancelled.
pub const CANCELLED: &'static str = "cancelled";

/// Replace trashes the old item first: only one entry back and no failure is the item safely in Trash,
/// and anything else replaces nothing.
pub fn trash_took(failed: usize, entries: usize) -> (r: Result<(), &'static str>)
    ensures
        r is Ok <==> (failed == 0 && entries == 1),
        r matches Err(e) ==> e == TRASH_REFUSED,
{
    if failed != 0 || entries != 1 {
        Err(TRASH_REFUSED)
    } else {
        Ok(())
    }
}

/// Whether a replace whose landing failed puts the old item straight back: only when nothing took its
/// name and nothing was journaled after its trash step, a cancel included.
pub fn puts_back(vacant: bool, steps: usize, at: usize) -> (r: bool)
    ensures
        r == (vacant && steps == at + 1),
{
    vacant && at < usize::MAX && steps == at + 1
}

/// What a put-back leaves: a restore that worked drops the trash step, so undo has nothing left to do;
/// one that failed keeps the step for undo, and says where the old item is unless the error is the
/// cancel, which keeps its own word.
pub open spec fn put_back_of(restored: Result<(), Seq<char>>, msg: Seq<char>) -> (bool, Seq<char>) {
    match restored {
        Ok(()) => (true, msg),
        Err(why) => if msg == CANCELLED@ {
            (false, msg)
        } else {
            (false, msg + "; the item it replaced is still in Trash ("@ + why + ")"@)
        },
    }
}

pub fn after_put_back(restored: &Result<(), String>, msg: &str) -> (r: (bool, String))
    ensures
        (r.0, r.1@) == put_back_of(
            match restored {
                Ok(()) => Ok(()),
                Err(w) => Err(w@),
            },
            msg@,
        ),
{
    let mut out = String::new();
    push_str(&mut out, msg);
    match restored {
        Ok(()) => (true, out),
        Err(why) => {
            let m = chars_of(msg);
            let c = chars_of(CANCELLED);
            assert(m@.subrange(0, m.len() as int) =~= m@);
            if crate::text::range_eq(&m, 0, m.len(), &c) {
                (false, out)
            } else {
                push_str(&mut out, "; the item it replaced is still in Trash (");
                push_str(&mut out, why.as_str());
                push_str(&mut out, ")");
                (false, out)
            }
        },
    }
}

} // verus!
