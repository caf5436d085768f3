//! Text shown to the user: durations, ages, shortened ids, and the
//! bounded log of recent events.

use vstd::prelude::*;
use vstd::utf8::*;
use vstd::string::StringExecFns;
use vstd::string::StringSliceAdditionalSpecFns;
use crate::primitives::unix_time_secs;
use crate::text::{concat, decimal, dec_chars, hex, hex_chars, lemma_encode_concat};

verus! {

/// How long the daemon has been up: days and hours from a day on, hours
/// and minutes from an hour on, else minutes and seconds ("0m 5s" under a
/// minute).
pub open spec fn uptime_text(secs: u64) -> Seq<char> {
    if secs >= 86400 {
        dec_chars((secs / 86400) as nat) + "d "@ + dec_chars(((secs % 86400) / 3600) as nat) + "h"@
    } else if secs >= 3600 {
        dec_chars((secs / 3600) as nat) + "h "@ + dec_chars(((secs % 3600) / 60) as nat) + "m"@
    } else {
        dec_chars((secs / 60) as nat) + "m "@ + dec_chars((secs % 60) as nat) + "s"@
    }
}

/// An uptime is shown in its two largest units: a whole number `a` of the
/// larger unit and `b` of the smaller, where the larger unit is a day from
/// a day on, an hour from an hour on, and a minute below; together they
/// reach `secs` to within one smaller unit, and `b` stays below one larger
/// unit.
pub proof fn lemma_uptime_units(secs: u64)
    ensures
        secs >= 86400 ==> exists|a: nat, b: nat|
            #![trigger dec_chars(a), dec_chars(b)]
            uptime_text(secs) == dec_chars(a) + "d "@ + dec_chars(b) + "h"@ && a * 86400 + b * 3600 <= secs < a
                * 86400 + (b + 1) * 3600 && b * 3600 < 86400,
        3600 <= secs < 86400 ==> exists|a: nat, b: nat|
            #![trigger dec_chars(a), dec_chars(b)]
            uptime_text(secs) == dec_chars(a) + "h "@ + dec_chars(b) + "m"@ && a * 3600 + b * 60 <= secs < a * 3600
                + (b + 1) * 60 && b * 60 < 3600,
        secs < 3600 ==> exists|a: nat, b: nat|
            #![trigger dec_chars(a), dec_chars(b)]
            uptime_text(secs) == dec_chars(a) + "m "@ + dec_chars(b) + "s"@ && a * 60 + b == secs && b < 60,
{
    if secs >= 86400 {
        let a = (secs / 86400) as nat;
        let b = ((secs % 86400) / 3600) as nat;
        assert(a * 86400 + b * 3600 <= secs < a * 86400 + (b + 1) * 3600 && b * 3600 < 86400) by (nonlinear_arith)
            requires
                a == secs / 86400,
                b == (secs % 86400) / 3600,
        ;
        assert(uptime_text(secs) == dec_chars(a) + "d "@ + dec_chars(b) + "h"@);
    } else if secs >= 3600 {
        let a = (secs / 3600) as nat;
        let b = ((secs % 3600) / 60) as nat;
        assert(a * 3600 + b * 60 <= secs < a * 3600 + (b + 1) * 60 && b * 60 < 3600) by (nonlinear_arith)
            requires
                a == secs / 3600,
                b == (secs % 3600) / 60,
        ;
        assert(uptime_text(secs) == dec_chars(a) + "h "@ + dec_chars(b) + "m"@);
    } else {
        let a = (secs / 60) as nat;
        let b = (secs % 60) as nat;
        assert(a * 60 + b * 1 <= secs < a * 60 + (b + 1) * 1 && b * 1 < 60) by (nonlinear_arith)
            requires
                a == secs / 60,
                b == secs % 60,
        ;
        assert(uptime_text(secs) == dec_chars(a) + "m "@ + dec_chars(b) + "s"@);
    }
}

/// `a`, a number, `b`, a number, `c`.
fn two_numbers(x: u64, a: &str, y: u64, b: &str) -> (res: String)
    ensures
        res@ == dec_chars(x as nat) + a@ + dec_chars(y as nat) + b@,
{
    let dx = decimal(x);
    let s1 = concat(dx.as_str(), a);
    let dy = decimal(y);
    let s2 = concat(s1.as_str(), dy.as_str());
    concat(s2.as_str(), b)
}

/// The uptime `secs` as text, in its two largest units.
pub fn format_uptime(secs: u64) -> (res: String)
    ensures
        res@ == uptime_text(secs),
{
    if secs >= 86400 {
        two_numbers(secs / 86400, "d ", (secs % 86400) / 3600, "h")
    } else if secs >= 3600 {
        two_numbers(secs / 3600, "h ", (secs % 3600) / 60, "m")
    } else {
        two_numbers(secs / 60, "m ", secs % 60, "s")
    }
}

/// How long ago `then` was, seen at `now`: under a minute is "Just now",
/// then whole minutes, hours or days. A time after `now` counts as now.
pub open spec fn age_text(now: u64, then: u64) -> Seq<char> {
    let diff: u64 = if now >= then {
        (now - then) as u64
    } else {
        0
    };
    if diff < 60 {
        "Just now"@
    } else if diff < 3600 {
        dec_chars((diff / 60) as nat) + " min ago"@
    } else if diff < 86400 {
        dec_chars((diff / 3600) as nat) + " hours ago"@
    } else {
        dec_chars((diff / 86400) as nat) + " days ago"@
    }
}

/// How long ago `unix_secs` was, seen at `now_secs`.
pub fn relative_time_label(now_secs: u64, unix_secs: u64) -> (res: String)
    ensures
        res@ == age_text(now_secs, unix_secs),
{
    let diff = now_secs.saturating_sub(unix_secs);
    if diff < 60 {
        String::from_str("Just now")
    } else if diff < 3600 {
        let d = decimal(diff / 60);
        concat(d.as_str(), " min ago")
    } else if diff < 86400 {
        let d = decimal(diff / 3600);
        concat(d.as_str(), " hours ago")
    } else {
        let d = decimal(diff / 86400);
        concat(d.as_str(), " days ago")
    }
}

/// How long ago `unix_secs` was, by the system clock.
pub fn format_relative_time(unix_secs: u64) -> (res: String)
    ensures
        exists|now: u64| res@ == age_text(now, unix_secs),
{
    let now = unix_time_secs();
    let res = relative_time_label(now, unix_secs);
    assert(res@ == age_text(now, unix_secs));
    res
}

/// `hex` cut to its first `max_len` bytes followed by "...", when longer.
pub fn truncate_hex(hex: &str, max_len: usize) -> (res: String)
    requires
        encode_utf8(hex@).len() > max_len ==> is_char_boundary(encode_utf8(hex@), max_len as int),
    ensures
        encode_utf8(hex@).len() <= max_len ==> res@ == hex@,
        encode_utf8(hex@).len() > max_len ==> encode_utf8(res@) == encode_utf8(hex@).take(max_len as int)
            + encode_utf8("..."@),
{
    if hex.as_bytes().len() > max_len {
        let (head, _) = hex.split_at(max_len);
        let res = concat(head, "...");
        proof {
            lemma_encode_concat(head@, "..."@);
            assert(encode_utf8(head@) =~= encode_utf8(hex@).take(max_len as int));
        }
        res
    } else {
        hex.to_owned()
    }
}

/// Largest number of events the log keeps.
pub const MAX_EVENT_LOG: usize = 500;

/// The most recent events, oldest first, at most [`MAX_EVENT_LOG`].
pub struct EventLog {
    entries: Vec<String>,
}

impl View for EventLog {
    type V = Seq<Seq<char>>;

    closed spec fn view(&self) -> Seq<Seq<char>> {
        self.entries@.map_values(|s: String| s@)
    }
}

impl EventLog {
    /// An empty log.
    pub fn new() -> (res: EventLog)
        ensures
            res@ == Seq::<Seq<char>>::empty(),
    {
        let res = EventLog { entries: Vec::new() };
        assert(res@ =~= Seq::<Seq<char>>::empty());
        res
    }

    /// Appends an event, dropping the oldest when the log is full.
    pub fn push_event(&mut self, entry: String)
        ensures
            old(self)@.len() >= MAX_EVENT_LOG ==> final(self)@ == old(self)@.drop_first().push(entry@),
            old(self)@.len() < MAX_EVENT_LOG ==> final(self)@ == old(self)@.push(entry@),
    {
        let ghost e = entry@;
        if self.entries.len() >= MAX_EVENT_LOG {
            self.entries.remove(0);
            assert(self@ =~= old(self)@.drop_first());
        }
        let ghost mid = self@;
        self.entries.push(entry);
        assert(self@ =~= mid.push(e));
    }

    /// The events, oldest first.
    pub fn events(&self) -> (res: &Vec<String>)
        ensures
            res@.map_values(|s: String| s@) == self@,
    {
        &self.entries
    }

    /// Removes every event.
    pub fn clear(&mut self)
        ensures
            final(self)@ == Seq::<Seq<char>>::empty(),
    {
        self.entries = Vec::new();
        assert(self@ =~= Seq::<Seq<char>>::empty());
    }
}

/// The first four bytes of a hash as eight hex digits.
pub fn hex_short(hash: &[u8; 32]) -> (res: String)
    ensures
        res@ == hex_chars(hash@.take(4)),
{
    let mut first: Vec<u8> = Vec::new();
    let mut i: usize = 0;
    while i < 4
        invariant
            i <= 4,
            first@ == hash@.take(i as int),
        decreases 4 - i,
    {
        first.push(hash[i]);
        i = i + 1;
        assert(first@ =~= hash@.take(i as int));
    }
    hex(first.as_slice())
}

/// The line changes that `similar`'s line diff (`TextDiff::from_lines`,
/// Myers, no deadline) finds from `left` to `right`, in order: each a tag
/// (0 deleted, 1 inserted, 2 unchanged) and the line with its line ending.
pub uninterp spec fn line_changes(left: Seq<char>, right: Seq<char>) -> Seq<(u8, Seq<char>)>;

/// The values of a list of tagged lines.
pub open spec fn change_views(c: Seq<(u8, String)>) -> Seq<(u8, Seq<char>)> {
    c.map_values(|x: (u8, String)| (x.0, x.1@))
}

/// `TextDiff::from_lines(left, right).iter_all_changes()` of similar, each
/// change as its tag and its line.
#[verifier::external_body]
fn diff_lines(left: &str, right: &str) -> (res: Vec<(u8, String)>)
    ensures
        change_views(res@) == line_changes(left@, right@),
        forall|i: int| 0 <= i < res@.len() ==> #[trigger] res@[i].0 < 3,
{
    let diff = similar::TextDiff::from_lines(left, right);
    let mut out = Vec::new();
    for change in diff.iter_all_changes() {
        let tag = match change.tag() {
            similar::ChangeTag::Delete => 0,
            similar::ChangeTag::Insert => 1,
            similar::ChangeTag::Equal => 2,
        };
        out.push((tag, change.value().to_string()));
    }
    out
}

/// One line of a unified diff: `-` for a deleted line, `+` for an inserted
/// one, a space for an unchanged one, then the line, ended by a newline.
pub open spec fn diff_line_text(tag: u8, line: Seq<char>) -> Seq<char> {
    let sign = if tag == 0 {
        "-"@
    } else if tag == 1 {
        "+"@
    } else {
        " "@
    };
    if line.len() > 0 && line.last() == '\n' {
        sign + line
    } else {
        sign + line + "\n"@
    }
}

/// The lines of a unified diff of `changes`, one after another.
pub open spec fn diff_text(changes: Seq<(u8, Seq<char>)>) -> Seq<char>
    decreases changes.len(),
{
    if changes.len() == 0 {
        Seq::empty()
    } else {
        diff_text(changes.drop_last()) + diff_line_text(changes.last().0, changes.last().1)
    }
}

/// The unified-diff text of a list of tagged lines.
pub fn format_changes(changes: &Vec<(u8, String)>) -> (res: String)
    ensures
        res@ == diff_text(change_views(changes@)),
{
    let mut out = String::new();
    let mut i: usize = 0;
    assert(change_views(changes@).take(0) =~= Seq::<(u8, Seq<char>)>::empty());
    while i < changes.len()
        invariant
            i <= changes@.len(),
            out@ == diff_text(change_views(changes@).take(i as int)),
        decreases changes@.len() - i,
    {
        let tag = changes[i].0;
        let line = changes[i].1.as_str();
        let sign: &str = if tag == 0 {
            "-"
        } else if tag == 1 {
            "+"
        } else {
            " "
        };
        let signed = concat(sign, line);
        let n = line.unicode_len();
        let text = if n > 0 && line.get_char(n - 1) == '\n' {
            signed
        } else {
            concat(signed.as_str(), "\n")
        };
        out = concat(out.as_str(), text.as_str());
        proof {
            let cv = change_views(changes@);
            assert(cv.take(i + 1).drop_last() =~= cv.take(i as int));
            assert(cv[i as int] == (tag, line@));
        }
        i = i + 1;
    }
    assert(change_views(changes@).take(changes@.len() as int) =~= change_views(changes@));
    out
}

/// A line-by-line unified diff of `left` against `right`, as shown when
/// resolving a conflict.
pub fn format_unified_diff(left: &str, right: &str) -> (res: String)
    ensures
        res@ == diff_text(line_changes(left@, right@)),
{
    let changes = diff_lines(left, right);
    format_changes(&changes)
}

} // verus!
