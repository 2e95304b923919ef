// A row index names a file only in the numbering the client read it from: a rows line carries that
// numbering, and a request that acts on rows read from an earlier one is refused.
use crate::json::{escape, escaped, field_str, field_usize, str_field, usize_field};
use crate::text::{chars_of, decimal, push_decimal, push_str};
use vstd::prelude::*;

verus! {

pub const STALE: &'static str = "the listing changed before this request arrived, so its rows name other files; nothing was done";

pub const STALE_MENU: &'static str = "The listing changed before the menu reached it; reopen the menu.";

/// The requests whose rows resolve to files something then acts on; thumb, dirsize, meta and window
/// only read.
pub open spec fn guarded(command: Seq<char>) -> bool {
    command == "trash"@ || command == "transfer"@ || command == "paths"@ || command == "menuaction"@
}

/// The error line the protocol answers a refused request with.
pub open spec fn error_text(at: Seq<char>, path: Seq<char>, msg: Seq<char>) -> Seq<char> {
    "{\"t\":\"error\",\"where\":\""@ + escaped(at) + "\",\"path\":\""@ + escaped(path) + "\",\"msg\":\""@
        + escaped(msg) + "\"}"@
}

/// The failed reply a menu action waits for, carrying the request's id.
pub open spec fn menu_failure_text(id: usize, msg: Seq<char>) -> Seq<char> {
    "{\"t\":\"menuaction\",\"id\":"@ + decimal(id as nat) + ",\"ok\":false,\"error\":\""@ + escaped(msg)
        + "\"}"@
}

/// The rows line with its numbering added as its last field.
pub open spec fn stamped_text(line: Seq<char>, generation: u64) -> Seq<char> {
    if line.len() > 0 && line.last() == '}' {
        line.drop_last() + ",\"listing\":"@ + decimal(generation as nat) + "}"@
    } else {
        line
    }
}

/// None for a request that names no numbering, or the one in force, or that only reads; otherwise
/// the answer that refuses it.
pub open spec fn refusal_text(line: Seq<char>, generation: u64) -> Option<Seq<char>> {
    match (usize_field(line, "listing"@), str_field(line, "c"@)) {
        (Some(named), Some(command)) => if named as u64 == generation || !guarded(command) {
            None
        } else if command == "menuaction"@ {
            Some(
                menu_failure_text(
                    match usize_field(line, "id"@) {
                        Some(id) => id,
                        None => 0,
                    },
                    STALE_MENU@,
                ),
            )
        } else {
            Some(error_text("stale"@, command, STALE@))
        },
        _ => None,
    }
}

/// The rows line carries the numbering it was written in, so a client can name it back.
pub fn stamped(rows_line: String, generation: u64) -> (r: String)
    ensures
        r@ == stamped_text(rows_line@, generation),
{
    let v = chars_of(rows_line.as_str());
    let n = v.len();
    if n > 0 && v[n - 1] == '}' {
        let mut out = crate::text::string_of_range(&v, 0, n - 1);
        assert(v@.subrange(0, n - 1) =~= rows_line@.drop_last());
        push_str(&mut out, ",\"listing\":");
        push_decimal(&mut out, generation);
        push_str(&mut out, "}");
        out
    } else {
        rows_line
    }
}

fn is_text(s: &String, t: &str) -> (r: bool)
    ensures
        r == (s@ == t@),
{
    let a = chars_of(s.as_str());
    let b = chars_of(t);
    assert(a@.subrange(0, a.len() as int) =~= a@);
    crate::text::range_eq(&a, 0, a.len(), &b)
}

/// Sample refused request: {"c":"trash","rows":[0],"menuId":0,"listing":1} while the listing is at 2.
pub fn refusal(line: &str, generation: u64) -> (r: Option<String>)
    ensures
        crate::chooser::opt_view(r) == refusal_text(line@, generation),
{
    let named = match field_usize(line, "listing") {
        Some(n) => n,
        None => return None,
    };
    let command = match field_str(line, "c") {
        Some(c) => c,
        None => return None,
    };
    let is_menu = is_text(&command, "menuaction");
    let is_guarded = is_text(&command, "trash") || is_text(&command, "transfer") || is_text(&command, "paths")
        || is_menu;
    if named as u64 == generation || !is_guarded {
        return None;
    }
    if is_menu {
        let id: usize = match field_usize(line, "id") {
            Some(id) => id,
            None => 0,
        };
        let mut out = String::new();
        push_str(&mut out, "{\"t\":\"menuaction\",\"id\":");
        push_decimal(&mut out, id as u64);
        push_str(&mut out, ",\"ok\":false,\"error\":\"");
        let msg = escape(STALE_MENU);
        push_str(&mut out, msg.as_str());
        push_str(&mut out, "\"}");
        assert(out@ =~= menu_failure_text(id, STALE_MENU@));
        return Some(out);
    }
    let mut out = String::new();
    push_str(&mut out, "{\"t\":\"error\",\"where\":\"");
    let at = escape("stale");
    push_str(&mut out, at.as_str());
    push_str(&mut out, "\",\"path\":\"");
    let path = escape(command.as_str());
    push_str(&mut out, path.as_str());
    push_str(&mut out, "\",\"msg\":\"");
    let msg = escape(STALE);
    push_str(&mut out, msg.as_str());
    push_str(&mut out, "\"}");
    assert(out@ =~= error_text("stale"@, command@, STALE@));
    Some(out)
}

} // verus!
