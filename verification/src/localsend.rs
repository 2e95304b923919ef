// LocalSend's CLI reports each transfer on an event line of its own under its panel: reading that line,
// and the one line the client hears for either leg.
use crate::json::{escape, escaped};
use crate::keyfile::{after_piece, first_piece, line_of, next_piece};
use crate::text::{chars_of, decimal, push_decimal, push_range, push_str, starts_with, string_of_range, trim};
use vstd::prelude::*;

verus! {

/// One device the CLI can see: its place in the panel's list, its name and its address.
#[derive(Debug)]
pub struct Peer {
    pub index: usize,
    pub name: String,
    pub address: String,
}

/// The prefix of a device's event line: "S <device>: ".
pub open spec fn event_head(name: Seq<char>) -> Seq<char> {
    "S "@ + name + ": "@
}

/// The last line of `t` that, trimmed, starts with `head`, after `found` for the lines before `t`.
pub open spec fn last_event(t: Seq<char>, head: Seq<char>, found: Option<Seq<char>>) -> Option<Seq<char>>
    decreases t.len(),
{
    if t.len() == 0 {
        found
    } else {
        let line = trim(line_of(first_piece(t)));
        last_event(after_piece(t), head, if starts_with(line, head) {
            Some(line)
        } else {
            found
        })
    }
}

/// `s` with every trailing `.` removed.
pub open spec fn without_dots(s: Seq<char>) -> Seq<char>
    decreases s.len(),
{
    if s.len() > 0 && s.last() == '.' {
        without_dots(s.drop_last())
    } else {
        s
    }
}

/// The verdict of the device's own last event line: a transfer when it says Sent, a refusal when it
/// says Failed, and nothing otherwise.
pub open spec fn verdict(text: Seq<char>, name: Seq<char>) -> Option<Result<(), Seq<char>>> {
    let head = event_head(name);
    match last_event(text, head, None) {
        Some(line) => {
            let said = trim(line.skip(head.len() as int));
            if starts_with(said, "Sent "@) {
                Some(Ok(()))
            } else if starts_with(said, "Failed"@) {
                Some(Err("LocalSend could not send to "@ + name + ": "@ + without_dots(said) + "."@))
            } else {
                None
            }
        },
        None => None,
    }
}

pub open spec fn verdict_view(r: Option<Result<(), String>>) -> Option<Result<(), Seq<char>>> {
    match r {
        Some(Ok(())) => Some(Ok(())),
        Some(Err(e)) => Some(Err(e@)),
        None => None,
    }
}

fn head_chars(name: &str) -> (h: Vec<char>)
    ensures
        h@ == event_head(name@),
{
    let mut s = String::new();
    push_str(&mut s, "S ");
    push_str(&mut s, name);
    push_str(&mut s, ": ");
    chars_of(s.as_str())
}

/// Sample event lines, exactly as the CLI prints them under its panel: "S Clean Lemon: Sent 1 file
/// (61 B, took 0s)" and "D [1] Clean Lemon (192.168.21.23)". The prefix is the whole test, never a
/// substring: a device named "Sent Phone" is not a completed transfer the moment it is discovered.
pub fn sent(text: &str, name: &str) -> (r: Option<Result<(), String>>)
    ensures
        verdict_view(r) == verdict(text@, name@),
{
    let t = chars_of(text);
    let head = head_chars(name);
    let mut found: Option<(usize, usize)> = None;
    let mut i: usize = 0;
    assert(t@.skip(0) =~= t@);
    while i < t.len()
        invariant
            i <= t.len(),
            t@ == text@,
            head@ == event_head(name@),
            match found {
                Some((a, b)) => a <= b <= t.len() && starts_with(t@.subrange(a as int, b as int), head@)
                    && last_event(t@, head@, None) == last_event(
                    t@.skip(i as int),
                    head@,
                    Some(t@.subrange(a as int, b as int)),
                ),
                None => last_event(t@, head@, None) == last_event(t@.skip(i as int), head@, None),
            },
        decreases t.len() - i,
    {
        let p = next_piece(&t, i);
        let (a, b) = crate::text::trim_range(&t, p.start, p.line_end);
        if crate::text::has_at(&t, a, b, &head) {
            found = Some((a, b));
        }
        i = p.end;
    }
    assert(t@.skip(i as int) =~= Seq::<char>::empty());
    let (a, b) = match found {
        Some(f) => f,
        None => return None,
    };
    let ghost line = t@.subrange(a as int, b as int);
    assert(starts_with(line, head@));
    let (c, d) = crate::text::trim_range(&t, a + head.len(), b);
    assert(line.skip(head@.len() as int) =~= t@.subrange(a + head.len(), b as int));
    let ghost said = t@.subrange(c as int, d as int);
    let sent_word = chars_of("Sent ");
    let failed_word = chars_of("Failed");
    if crate::text::has_at(&t, c, d, &sent_word) {
        return Some(Ok(()));
    }
    if crate::text::has_at(&t, c, d, &failed_word) {
        let mut e = d;
        while e > c && t[e - 1] == '.'
            invariant
                c <= e <= d <= t.len(),
                without_dots(said) == without_dots(t@.subrange(c as int, e as int)),
            decreases e,
        {
            assert(t@.subrange(c as int, e as int).drop_last() =~= t@.subrange(c as int, e - 1));
            e = e - 1;
        }
        let mut msg = String::new();
        push_str(&mut msg, "LocalSend could not send to ");
        push_str(&mut msg, name);
        push_str(&mut msg, ": ");
        push_range(&mut msg, &t, c, e);
        push_str(&mut msg, ".");
        return Some(Err(msg));
    }
    None
}

/// Which leg a request asks for: a send when its op says so, the device list otherwise.
pub open spec fn is_send(op: Seq<char>) -> bool {
    op == "send"@
}

/// What the CLI answered a leg: the send's verdict, or the devices it could see.
pub enum Outcome {
    Sent(Result<(), String>),
    Peers(Result<Vec<Peer>, String>),
}

/// The devices as the answer lists them.
pub open spec fn peer_rows(peers: Seq<Peer>) -> Seq<char>
    decreases peers.len(),
{
    if peers.len() == 0 {
        Seq::empty()
    } else {
        let before = peer_rows(peers.drop_last());
        let p = peers.last();
        let row = "{\"name\":\""@ + escaped(p.name@) + "\",\"address\":\""@ + escaped(p.address@) + "\"}"@;
        if peers.len() == 1 {
            row
        } else {
            before + ","@ + row
        }
    }
}

/// The line a send is answered with: its verdict, and the reason when it failed.
pub open spec fn sent_text(id: usize, verdict: Result<(), Seq<char>>) -> Seq<char> {
    match verdict {
        Ok(()) => "{\"t\":\"localsendsent\",\"id\":"@ + decimal(id as nat) + ",\"ok\":true,\"reason\":\"\"}"@,
        Err(reason) => "{\"t\":\"localsendsent\",\"id\":"@ + decimal(id as nat) + ",\"ok\":false,\"reason\":\""@
            + escaped(reason) + "\"}"@,
    }
}

/// The one line the client hears for either leg.
pub open spec fn answer_text(id: usize, outcome: Outcome) -> Seq<char> {
    match outcome {
        Outcome::Sent(Ok(())) => sent_text(id, Ok(())),
        Outcome::Sent(Err(reason)) => sent_text(id, Err(reason@)),
        Outcome::Peers(Ok(found)) => "{\"t\":\"localsendpeers\",\"id\":"@ + decimal(id as nat) + ",\"peers\":["@
            + peer_rows(found@) + "],\"reason\":\""@ + (if found.len() == 0 {
            "no devices are answering on this network"@
        } else {
            ""@
        }) + "\"}"@,
        Outcome::Peers(Err(reason)) => "{\"t\":\"localsendpeers\",\"id\":"@ + decimal(id as nat)
            + ",\"peers\":[],\"reason\":\""@ + escaped(reason@) + "\"}"@,
    }
}

pub fn sends(op: &str) -> (r: bool)
    ensures
        r == is_send(op@),
{
    let v = chars_of(op);
    let w = chars_of("send");
    assert(v@.subrange(0, v.len() as int) =~= v@);
    crate::text::range_eq(&v, 0, v.len(), &w)
}

/// Sample: {"t":"localsendpeers","id":3,"peers":[{"name":"Clean Lemon","address":"192.168.21.23"}],"reason":""}
pub fn answer(id: usize, outcome: &Outcome) -> (r: String)
    ensures
        r@ == answer_text(id, *outcome),
{
    let mut out = String::new();
    match outcome {
        Outcome::Sent(Ok(())) => {
            push_str(&mut out, "{\"t\":\"localsendsent\",\"id\":");
            push_decimal(&mut out, id as u64);
            push_str(&mut out, ",\"ok\":true,\"reason\":\"\"}");
        },
        Outcome::Sent(Err(reason)) => {
            push_str(&mut out, "{\"t\":\"localsendsent\",\"id\":");
            push_decimal(&mut out, id as u64);
            push_str(&mut out, ",\"ok\":false,\"reason\":\"");
            let e = escape(reason.as_str());
            push_str(&mut out, e.as_str());
            push_str(&mut out, "\"}");
        },
        Outcome::Peers(Ok(found)) => {
            push_str(&mut out, "{\"t\":\"localsendpeers\",\"id\":");
            push_decimal(&mut out, id as u64);
            push_str(&mut out, ",\"peers\":[");
            let ghost start = out@;
            let mut k: usize = 0;
            assert(found@.take(0) =~= Seq::<Peer>::empty());
            assert(out@ =~= start + peer_rows(found@.take(0)));
            while k < found.len()
                invariant
                    k <= found.len(),
                    out@ == start + peer_rows(found@.take(k as int)),
                decreases found.len() - k,
            {
                let ghost before = out@;
                assert(found@.take(k + 1).drop_last() =~= found@.take(k as int));
                if k > 0 {
                    push_str(&mut out, ",");
                }
                push_str(&mut out, "{\"name\":\"");
                let n = escape(found[k].name.as_str());
                push_str(&mut out, n.as_str());
                push_str(&mut out, "\",\"address\":\"");
                let a = escape(found[k].address.as_str());
                push_str(&mut out, a.as_str());
                push_str(&mut out, "\"}");
                assert(out@ =~= start + peer_rows(found@.take(k + 1)));
                k = k + 1;
            }
            assert(found@.take(k as int) =~= found@);
            push_str(&mut out, "],\"reason\":\"");
            if found.len() == 0 {
                push_str(&mut out, "no devices are answering on this network");
            } else {
                push_str(&mut out, "");
            }
            push_str(&mut out, "\"}");
        },
        Outcome::Peers(Err(reason)) => {
            push_str(&mut out, "{\"t\":\"localsendpeers\",\"id\":");
            push_decimal(&mut out, id as u64);
            push_str(&mut out, ",\"peers\":[],\"reason\":\"");
            let e = escape(reason.as_str());
            push_str(&mut out, e.as_str());
            push_str(&mut out, "\"}");
        },
    }
    out
}


/// What a request needs before any terminal is opened.
pub enum Leg {
    /// The answer is ready: a send of nothing is refused at once.
    Answered(String),
    /// A send to the named device: the CLI runs with these arguments.
    Send(String, Vec<String>),
    /// The list of devices answering on the network.
    Peers,
}

/// Sample input: ("send", "Clean Lemon", [], 3), answered at once with
/// {"t":"localsendsent","id":3,"ok":false,"reason":"LocalSend was given nothing to send."}.
///
/// A request's first step: a send of nothing is answered without a terminal, a send of paths goes to
/// the CLI with each path after its own `-f`, and any other op lists the devices.
pub fn request_leg(op: &str, peer: &str, paths: &[String], id: usize) -> (r: Leg)
    ensures
        match r {
            Leg::Answered(text) => is_send(op@) && paths.len() == 0 && text@ == sent_text(
                id,
                Err(NOTHING_TO_SEND@),
            ),
            Leg::Send(to, args) => is_send(op@) && paths.len() > 0 && to@ == peer@ && args@.map_values(
                |a: String| a@,
            ) == send_args_of(paths@.map_values(|p: String| p@)),
            Leg::Peers => !is_send(op@),
        },
{
    if !sends(op) {
        return Leg::Peers;
    }
    match send_args(paths) {
        Err(e) => {
            let mut reason = String::new();
            push_str(&mut reason, e);
            let outcome = Outcome::Sent(Err(reason));
            Leg::Answered(answer(id, &outcome))
        },
        Ok(args) => {
            let mut to = String::new();
            push_str(&mut to, peer);
            Leg::Send(to, args)
        },
    }
}

/// What a send is refused with before any terminal is opened.
pub const NOTHING_TO_SEND: &'static str = "LocalSend was given nothing to send.";

/// The CLI's arguments for a send: each path after its own `-f`, so no path is ever read as an option.
pub open spec fn send_args_of(paths: Seq<Seq<char>>) -> Seq<Seq<char>>
    decreases paths.len(),
{
    if paths.len() == 0 {
        Seq::empty()
    } else {
        send_args_of(paths.drop_last()) + seq!["-f"@, paths.last()]
    }
}

/// Sample input: ["/home/me/a b.txt"], which gives ["-f", "/home/me/a b.txt"].
pub fn send_args(paths: &[String]) -> (r: Result<Vec<String>, &'static str>)
    ensures
        match r {
            Ok(args) => paths.len() > 0 && args@.map_values(|a: String| a@) == send_args_of(
                paths@.map_values(|p: String| p@),
            ),
            Err(e) => paths.len() == 0 && e == NOTHING_TO_SEND,
        },
{
    if paths.len() == 0 {
        return Err(NOTHING_TO_SEND);
    }
    let ghost ps = paths@.map_values(|p: String| p@);
    let mut args: Vec<String> = Vec::new();
    let mut k: usize = 0;
    assert(ps.take(0) =~= Seq::<Seq<char>>::empty());
    while k < paths.len()
        invariant
            k <= paths.len(),
            ps == paths@.map_values(|p: String| p@),
            args@.map_values(|a: String| a@) == send_args_of(ps.take(k as int)),
        decreases paths.len() - k,
    {
        let ghost before = args@.map_values(|a: String| a@);
        args.push(String::from_str("-f"));
        let mut p = String::new();
        push_str(&mut p, paths[k].as_str());
        args.push(p);
        assert(ps.take(k + 1).drop_last() =~= ps.take(k as int));
        assert(args@.map_values(|a: String| a@) =~= before + seq!["-f"@, ps[k as int]]);
        k = k + 1;
    }
    assert(ps.take(paths.len() as int) =~= ps);
    Ok(args)
}

/// What the device list leg does with what the panel shows so far: answer with the devices once any
/// is listed, with the CLI's refusal if it printed one, with no devices once the time is up, and
/// otherwise keep reading.
pub open spec fn peers_verdict(listed: Seq<Peer>, refused: Option<Seq<char>>, past_deadline: bool) -> Option<
    Result<Seq<Peer>, Seq<char>>,
> {
    if listed.len() > 0 {
        Some(Ok(listed))
    } else if refused is Some {
        Some(Err(refused->0))
    } else if past_deadline {
        Some(Ok(Seq::empty()))
    } else {
        None
    }
}

pub fn peers_step(listed: Vec<Peer>, refused: Option<String>, past_deadline: bool) -> (r: Option<
    Result<Vec<Peer>, String>,
>)
    ensures
        match r {
            Some(Ok(found)) => peers_verdict(listed@, crate::chooser::opt_view(refused), past_deadline) == Some(
                Ok::<Seq<Peer>, Seq<char>>(found@),
            ),
            Some(Err(e)) => peers_verdict(listed@, crate::chooser::opt_view(refused), past_deadline) == Some(
                Err::<Seq<Peer>, Seq<char>>(e@),
            ),
            None => peers_verdict(listed@, crate::chooser::opt_view(refused), past_deadline) is None,
        },
{
    if listed.len() > 0 {
        return Some(Ok(listed));
    }
    match refused {
        Some(why) => Some(Err(why)),
        None => if past_deadline {
            let none: Vec<Peer> = Vec::new();
            assert(none@ =~= Seq::<Peer>::empty());
            Some(Ok(none))
        } else {
            None
        },
    }
}

/// What a send does while it looks for the device it was asked to send to.
#[derive(Debug, PartialEq, Eq)]
pub enum Finding {
    /// Keep reading the panel.
    Wait,
    /// The device is the row this many presses of Down below the first; then Enter sends.
    Press(usize),
    Refused(String),
}

pub enum FindingView {
    Wait,
    Press(int),
    Refused(Seq<char>),
}

pub open spec fn finding_view(f: Finding) -> FindingView {
    match f {
        Finding::Wait => FindingView::Wait,
        Finding::Press(n) => FindingView::Press(n as int),
        Finding::Refused(e) => FindingView::Refused(e@),
    }
}

/// The first listed device named `name`.
pub open spec fn named_row(listed: Seq<Peer>, name: Seq<char>) -> Option<int>
    decreases listed.len(),
{
    if listed.len() == 0 {
        None
    } else if listed[0].name@ == name {
        Some(0)
    } else {
        match named_row(listed.drop_first(), name) {
            Some(k) => Some(k + 1),
            None => None,
        }
    }
}

/// Once the time is up the device is not answering; before that a refusal ends the send, and the
/// device listed under `name` is reached from the first row, which the list opens on.
pub open spec fn finding_of(name: Seq<char>, listed: Seq<Peer>, refused: Option<Seq<char>>, past_deadline: bool) -> FindingView {
    if past_deadline {
        FindingView::Refused(name + " is not answering on this network any more."@)
    } else if refused is Some {
        FindingView::Refused(refused->0)
    } else {
        match named_row(listed, name) {
            Some(k) => FindingView::Press(if listed[k].index >= 1 {
                listed[k].index - 1
            } else {
                0
            }),
            None => FindingView::Wait,
        }
    }
}

fn same_name(a: &str, b: &str) -> (r: bool)
    ensures
        r == (a@ == b@),
{
    let x = chars_of(a);
    let y = chars_of(b);
    assert(x@.subrange(0, x.len() as int) =~= x@);
    crate::text::range_eq(&x, 0, x.len(), &y)
}

pub fn finding(name: &str, listed: &Vec<Peer>, refused: Option<String>, past_deadline: bool) -> (r: Finding)
    ensures
        finding_view(r) == finding_of(name@, listed@, crate::chooser::opt_view(refused), past_deadline),
{
    if past_deadline {
        let mut msg = String::new();
        push_str(&mut msg, name);
        push_str(&mut msg, " is not answering on this network any more.");
        return Finding::Refused(msg);
    }
    let ghost was = crate::chooser::opt_view(refused);
    if let Some(why) = refused {
        return Finding::Refused(why);
    }
    let mut k: usize = 0;
    assert(listed@.skip(0) =~= listed@);
    while k < listed.len()
        invariant
            k <= listed.len(),
            !past_deadline,
            was is None,
            was == crate::chooser::opt_view(refused),
            forall|j: int| 0 <= j < k ==> listed@[j].name@ != name@,
            named_row(listed@, name@) == (match named_row(listed@.skip(k as int), name@) {
                Some(q) => Some(q + k),
                None => None,
            }),
        decreases listed.len() - k,
    {
        assert(listed@.skip(k as int)[0] == listed@[k as int]);
        if same_name(listed[k].name.as_str(), name) {
            assert(named_row(listed@.skip(k as int), name@) == Some(0int));
            let i = listed[k].index;
            return Finding::Press(if i >= 1 {
                i - 1
            } else {
                0
            });
        }
        assert(listed@.skip(k as int).drop_first() =~= listed@.skip(k + 1));
        k = k + 1;
    }
    Finding::Wait
}

/// What a send that pressed Enter makes of what it reads: the time running out is a refusal by the
/// device; before that the device's own event line decides, and a CLI that ended without one sent
/// nothing, whatever its exit code was.
pub open spec fn outcome_of(name: Seq<char>, text: Seq<char>, ended: bool, past_deadline: bool) -> Option<
    Result<(), Seq<char>>,
> {
    if past_deadline {
        Some(Err(name + " did not accept the transfer."@))
    } else if verdict(text, name) is Some {
        verdict(text, name)
    } else if ended {
        Some(Err("LocalSend's own CLI ended without sending to "@ + name + "."@))
    } else {
        None
    }
}

/// `text` is everything the CLI printed so far, read again after it ended when it has.
pub fn awaiting(name: &str, text: &str, ended: bool, past_deadline: bool) -> (r: Option<Result<(), String>>)
    ensures
        verdict_view(r) == outcome_of(name@, text@, ended, past_deadline),
{
    let mut msg = String::new();
    if past_deadline {
        push_str(&mut msg, name);
        push_str(&mut msg, " did not accept the transfer.");
        return Some(Err(msg));
    }
    match sent(text, name) {
        Some(v) => Some(v),
        None => if ended {
            push_str(&mut msg, "LocalSend's own CLI ended without sending to ");
            push_str(&mut msg, name);
            push_str(&mut msg, ".");
            Some(Err(msg))
        } else {
            None
        },
    }
}

} // verus!
