use vstd::prelude::*;

use crate::err_tools::ErrorX;
use crate::string_tools::{newliner, repeated, tabber};
use crate::time_of_day;
use crate::time_text;

verus! {

/// One structured entry of the error/log sink: a kind, a message, and
/// the time it was recorded.
#[derive(Debug)]
pub struct Loglet {
    kind: String,
    msg: String,
    time: String,
}

/// How one field of a log entry is laid out: on its own indented line,
/// followed by a blank line.
pub open spec fn loglet_line(e: Seq<char>) -> Seq<char> {
    "\n"@ + "\t"@ + e + "\n"@ + "\n"@
}

/// The full rendering of a log entry.
pub open spec fn loglet_text(kind: Seq<char>, msg: Seq<char>, time: Seq<char>) -> Seq<char> {
    "Kind:"@ + loglet_line(kind) + "Message:"@ + loglet_line(msg) + "Time:"@ + loglet_line(time)
        + "/================================================/"@
}

impl Loglet {
    pub closed spec fn kind_spec(&self) -> Seq<char> {
        self.kind@
    }

    pub closed spec fn msg_spec(&self) -> Seq<char> {
        self.msg@
    }

    pub closed spec fn time_spec(&self) -> Seq<char> {
        self.time@
    }

    pub fn new(kind: &str, msg: &str, time: &str) -> (r: Loglet)
        ensures
            r.kind_spec() == kind@,
            r.msg_spec() == msg@,
            r.time_spec() == time@,
    {
        Loglet {
            kind: String::from_str(kind),
            msg: String::from_str(msg),
            time: String::from_str(time),
        }
    }

    /// An error entry stamped with the current time of day.
    pub fn err_s(msg: String) -> (r: Loglet)
        ensures
            r.kind_spec() == "Error"@,
            r.msg_spec() == msg@,
            exists|h: u32, m: u32, s: u32|
                h < 24 && m < 60 && s < 60 && r.time_spec() == #[trigger] time_text(h, m, s),
    {
        Loglet { kind: String::from_str("Error"), msg, time: time_of_day() }
    }

    /// An error entry built from an error value, stamped with the
    /// current time of day.
    pub fn err(err: ErrorX) -> (r: Loglet)
        ensures
            r.kind_spec() == "Error"@,
            r.msg_spec() == err.details_spec(),
            exists|h: u32, m: u32, s: u32|
                h < 24 && m < 60 && s < 60 && r.time_spec() == #[trigger] time_text(h, m, s),
    {
        let msg = err.message().clone();
        Loglet { kind: String::from_str("Error"), msg, time: time_of_day() }
    }

    /// Renders the entry for display.
    pub fn format_loglet(&self) -> (r: String)
        ensures
            r@ == loglet_text(self.kind_spec(), self.msg_spec(), self.time_spec()),
    {
        let mut r = String::from_str("Kind:");
        append_loglet_line(&mut r, &self.kind);
        r.append("Message:");
        append_loglet_line(&mut r, &self.msg);
        r.append("Time:");
        append_loglet_line(&mut r, &self.time);
        r.append("/================================================/");
        proof {
            assert(r@ =~= loglet_text(self.kind_spec(), self.msg_spec(), self.time_spec()));
        }
        r
    }
}

/// Appends one field line of a log entry's rendering.
fn append_loglet_line(r: &mut String, e: &String)
    ensures
        final(r)@ == old(r)@ + loglet_line(e@),
{
    let nl = newliner(1);
    let tab = tabber(1);
    let blank = newliner(2);
    proof {
        assert(repeated("\n"@, 0) =~= Seq::empty());
        assert(repeated("\n"@, 1) =~= "\n"@);
        assert(repeated("\n"@, 2) =~= "\n"@ + "\n"@);
        assert(repeated("\t"@, 0) =~= Seq::empty());
        assert(repeated("\t"@, 1) =~= "\t"@);
    }
    r.append(nl.as_str());
    r.append(tab.as_str());
    r.append(e.as_str());
    r.append(blank.as_str());
    proof {
        assert(r@ =~= old(r)@ + loglet_line(e@));
    }
}

/// A bounded in-memory log: at most thirty entries, oldest dropped first.
pub struct MessageLog {
    log: Vec<Loglet>,
}

impl MessageLog {
    pub closed spec fn log_spec(&self) -> Seq<Loglet> {
        self.log@
    }

    pub fn default() -> (r: MessageLog)
        ensures
            r.log_spec() == Seq::<Loglet>::empty(),
    {
        MessageLog { log: Vec::new() }
    }

    /// Appends an entry, first dropping entries from the front until at
    /// most twenty-nine remain, so the log never exceeds thirty.
    pub fn push(&mut self, loglet: Loglet)
        ensures
            final(self).log_spec() == old(self).log_spec().skip(
                if old(self).log_spec().len() >= 30 {
                    old(self).log_spec().len() - 29
                } else {
                    0
                },
            ).push(loglet),
            final(self).log_spec().len() <= 30,
    {
        let ghost orig = old(self).log_spec();
        proof {
            assert(orig.skip(0) =~= orig);
        }
        while self.log.len() >= 30
            invariant
                exists|k: int|
                    0 <= k <= orig.len() && self.log@ == orig.skip(k) && (k == 0 || orig.len() - k
                        >= 29),
            decreases self.log.len(),
        {
            let ghost pre = self.log@;
            self.log.remove(0);
            proof {
                let k = choose|k: int|
                    0 <= k <= orig.len() && pre == orig.skip(k) && (k == 0 || orig.len() - k >= 29);
                assert(pre.len() >= 30);
                assert(self.log@ =~= orig.skip(k + 1));
            }
        }
        let ghost before = self.log@;
        self.log.push(loglet);
        proof {
            let target: int = if orig.len() >= 30 {
                orig.len() - 29
            } else {
                0
            };
            let k = choose|k: int|
                0 <= k <= orig.len() && before == orig.skip(k) && (k == 0 || orig.len() - k >= 29);
            assert(before.len() <= 29);
            assert(k == target);
            assert(self.log@ == orig.skip(target).push(loglet));
        }
    }

    /// The number of entries held.
    pub fn len(&self) -> (r: usize)
        ensures
            r == self.log_spec().len(),
    {
        self.log.len()
    }

    /// The entry at a position, oldest first.
    pub fn entry_at(&self, i: usize) -> (r: &Loglet)
        requires
            i < self.log_spec().len(),
        ensures
            *r == self.log_spec()[i as int],
    {
        &self.log[i]
    }
}

/// The display state of one pop-up window carrying a message log.
pub struct GenericWindow {
    pub is_window_open: bool,
    pub try_to_open_window: bool,
    pub log: MessageLog,
    pub name: String,
}

impl GenericWindow {
    pub fn default() -> (r: GenericWindow)
        ensures
            !r.is_window_open,
            !r.try_to_open_window,
            r.log.log_spec() == Seq::<Loglet>::empty(),
            r.name@ == Seq::<char>::empty(),
    {
        GenericWindow {
            is_window_open: false,
            try_to_open_window: false,
            log: MessageLog::default(),
            name: String::new(),
        }
    }

    /// A fresh window that already carries its display name.
    pub fn new(name: &str) -> (r: GenericWindow)
        ensures
            !r.is_window_open,
            !r.try_to_open_window,
            r.log.log_spec() == Seq::<Loglet>::empty(),
            r.name@ == name@,
    {
        let mut gw = Self::default();
        gw.namae(name);
        gw
    }

    pub fn get_name(&self) -> (r: String)
        ensures
            r@ == self.name@,
    {
        self.name.clone()
    }

    /// Sets the display name and returns a copy of it.
    pub fn namae(&mut self, name: &str) -> (r: String)
        ensures
            final(self).name@ == name@,
            r@ == name@,
            final(self).is_window_open == old(self).is_window_open,
            final(self).try_to_open_window == old(self).try_to_open_window,
            final(self).log == old(self).log,
    {
        self.name = String::from_str(name);
        self.name.clone()
    }

    pub fn open_window(&mut self)
        ensures
            final(self).is_window_open,
            final(self).try_to_open_window == old(self).try_to_open_window,
            final(self).log == old(self).log,
            final(self).name == old(self).name,
    {
        self.is_window_open = true;
    }

    /// Records an entry and makes sure the window showing the log is open.
    pub fn push_loglet(&mut self, loglet: Loglet)
        ensures
            final(self).log.log_spec() == old(self).log.log_spec().skip(
                if old(self).log.log_spec().len() >= 30 {
                    old(self).log.log_spec().len() - 29
                } else {
                    0
                },
            ).push(loglet),
            final(self).is_window_open,
            final(self).try_to_open_window == old(self).try_to_open_window,
            final(self).name == old(self).name,
    {
        self.log.push(loglet);
        self.open_window();
    }
}

} // verus!
