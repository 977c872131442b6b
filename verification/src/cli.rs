//! Decisions of the command-line front end: orientation choice, presets and
//! the order in which pages are shown.
use vstd::prelude::*;
use crate::image::Orientation;
use crate::strings::occurs_at;

verus! {

/// The orientation asked for on the command line, before the flip option.
#[derive(Debug, Clone, Copy, PartialEq, Eq, Structural)]
pub enum OrientationArg {
    /// Wider than tall (the default).
    Landscape,
    /// Taller than wide.
    Portrait,
}

impl OrientationArg {
    /// The display orientation for this choice and the flip option.
    pub open spec fn spec_to_orientation(self, flip: bool) -> Orientation {
        match (self, flip) {
            (OrientationArg::Landscape, true) => Orientation::LandscapeFlip,
            (OrientationArg::Landscape, false) => Orientation::Landscape,
            (OrientationArg::Portrait, true) => Orientation::PortraitFlip,
            (OrientationArg::Portrait, false) => Orientation::Portrait,
        }
    }

    /// The display orientation for this choice and the flip option.
    pub fn to_orientation(self, flip: bool) -> (o: Orientation)
        ensures
            o == self.spec_to_orientation(flip),
    {
        match (self, flip) {
            (OrientationArg::Landscape, true) => Orientation::LandscapeFlip,
            (OrientationArg::Landscape, false) => Orientation::Landscape,
            (OrientationArg::Portrait, true) => Orientation::PortraitFlip,
            (OrientationArg::Portrait, false) => Orientation::Portrait,
        }
    }
}

impl Default for OrientationArg {
    fn default() -> (r: Self)
        ensures
            r == OrientationArg::Landscape,
    {
        OrientationArg::Landscape
    }
}


/// A built-in preset: a shell command whose output is shown.
#[derive(Debug, Clone, Copy, PartialEq, Eq, Structural)]
pub enum PresetName {
    /// Current time (HH:MM:SS)
    Clock,
    /// Current date and time
    DateTime,
    /// System uptime
    Uptime,
    /// Current git branch and status
    Git,
    /// Local IP address
    Ip,
    /// Username and hostname
    Whoami,
    /// Current working directory
    Pwd,
    /// CPU usage percentage (macOS)
    Cpu,
    /// Memory pressure (macOS)
    Memory,
    /// Docker container count
    Docker,
    /// Now playing from Spotify (macOS)
    Spotify,
    /// Random fortune cookie
    Fortune,
}

impl PresetName {
    /// The preset's description and its shell command.
    pub open spec fn spec_info(self) -> (Seq<char>, Seq<char>) {
        match self {
            PresetName::Clock => ("Current time"@, "date '+%H:%M:%S'"@),
            PresetName::DateTime => ("Date and time"@, "date '+%Y-%m-%d %H:%M'"@),
            PresetName::Uptime => ("System uptime"@, "uptime | awk '{print $3, $4}' | sed 's/,$//'"@),
            PresetName::Git => ("Git branch & status"@, "echo \"$(git branch --show-current 2>/dev/null || echo 'no repo'): $(git status --short 2>/dev/null | wc -l | tr -d ' ') changes\""@),
            PresetName::Ip => ("Local IP address"@, "echo \"IP: $(ipconfig getifaddr en0 2>/dev/null || hostname -I 2>/dev/null | awk '{print $1}' || echo 'N/A')\""@),
            PresetName::Whoami => ("Username @ hostname"@, "echo \"$(whoami)@$(hostname -s)\""@),
            PresetName::Pwd => ("Current directory"@, "basename \"$PWD\""@),
            PresetName::Cpu => ("CPU usage (macOS)"@, "top -l 1 -n 0 | grep 'CPU usage' | awk '{print \"CPU: \" $3}'"@),
            PresetName::Memory => ("Memory pressure (macOS)"@, "memory_pressure 2>/dev/null | grep 'System-wide' | awk '{print \"Mem: \" $NF}' || echo 'Mem: N/A'"@),
            PresetName::Docker => ("Docker containers"@, "echo \"Docker: $(docker ps -q 2>/dev/null | wc -l | tr -d ' ') running\""@),
            PresetName::Spotify => ("Spotify now playing (macOS)"@, "osascript -e 'tell application \"Spotify\" to if player state is playing then name of current track else \"Not playing\"' 2>/dev/null || echo 'Spotify N/A'"@),
            PresetName::Fortune => ("Random fortune"@, "fortune -s 2>/dev/null || echo 'Install fortune'"@),
        }
    }

    /// Returns (description, shell command).
    pub fn info(self) -> (r: (&'static str, &'static str))
        ensures
            (r.0@, r.1@) == self.spec_info(),
    {
        match self {
            PresetName::Clock => ("Current time", "date '+%H:%M:%S'"),
            PresetName::DateTime => ("Date and time", "date '+%Y-%m-%d %H:%M'"),
            PresetName::Uptime => ("System uptime", "uptime | awk '{print $3, $4}' | sed 's/,$//'"),
            PresetName::Git => ("Git branch & status", "echo \"$(git branch --show-current 2>/dev/null || echo 'no repo'): $(git status --short 2>/dev/null | wc -l | tr -d ' ') changes\""),
            PresetName::Ip => ("Local IP address", "echo \"IP: $(ipconfig getifaddr en0 2>/dev/null || hostname -I 2>/dev/null | awk '{print $1}' || echo 'N/A')\""),
            PresetName::Whoami => ("Username @ hostname", "echo \"$(whoami)@$(hostname -s)\""),
            PresetName::Pwd => ("Current directory", "basename \"$PWD\""),
            PresetName::Cpu => ("CPU usage (macOS)", "top -l 1 -n 0 | grep 'CPU usage' | awk '{print \"CPU: \" $3}'"),
            PresetName::Memory => ("Memory pressure (macOS)", "memory_pressure 2>/dev/null | grep 'System-wide' | awk '{print \"Mem: \" $NF}' || echo 'Mem: N/A'"),
            PresetName::Docker => ("Docker containers", "echo \"Docker: $(docker ps -q 2>/dev/null | wc -l | tr -d ' ') running\""),
            PresetName::Spotify => ("Spotify now playing (macOS)", "osascript -e 'tell application \"Spotify\" to if player state is playing then name of current track else \"Not playing\"' 2>/dev/null || echo 'Spotify N/A'"),
            PresetName::Fortune => ("Random fortune", "fortune -s 2>/dev/null || echo 'Install fortune'"),
        }
    }
}

/// Every preset, in the order the demo shows them.
pub open spec fn spec_all_presets() -> Seq<PresetName> {
    seq![
        PresetName::Clock,
        PresetName::DateTime,
        PresetName::Uptime,
        PresetName::Git,
        PresetName::Ip,
        PresetName::Whoami,
        PresetName::Pwd,
        PresetName::Cpu,
        PresetName::Memory,
        PresetName::Docker,
        PresetName::Spotify,
        PresetName::Fortune,
    ]
}

/// Every preset, in the order the demo shows them.
pub fn all_presets() -> (r: [PresetName; 12])
    ensures
        r@ == spec_all_presets(),
{
    let r = [
        PresetName::Clock,
        PresetName::DateTime,
        PresetName::Uptime,
        PresetName::Git,
        PresetName::Ip,
        PresetName::Whoami,
        PresetName::Pwd,
        PresetName::Cpu,
        PresetName::Memory,
        PresetName::Docker,
        PresetName::Spotify,
        PresetName::Fortune,
    ];
    assert(r@ =~= spec_all_presets());
    r
}


/// The pages to show: the wrapped pages, or the text itself when wrapping
/// gave none.
pub fn pages_or_text(pages: Vec<String>, text: &str) -> (r: Vec<String>)
    ensures
        r@.len() >= 1,
        pages@.len() == 0 ==> r@.len() == 1 && r@[0]@ == text@,
        pages@.len() > 0 ==> r@ == pages@,
{
    if pages.len() == 0 {
        let mut r: Vec<String> = Vec::new();
        r.push(text.to_owned());
        r
    } else {
        pages
    }
}

/// How a run of pages is shown: every page in turn, over and over in loop
/// mode, with a pause wherever another page (or, in loop mode, the next
/// round) follows.
#[derive(Debug, Clone, Copy, PartialEq, Eq, Structural)]
pub struct PageSchedule {
    pub page_count: usize,
    pub loop_mode: bool,
}

impl PageSchedule {
    /// The page shown after `page`, if any.
    pub open spec fn spec_next_page(self, page: int) -> Option<int> {
        if page + 1 < self.page_count {
            Some(page + 1)
        } else if self.loop_mode {
            Some(0)
        } else {
            None
        }
    }

    /// A schedule for `page_count` pages.
    pub fn new(page_count: usize, loop_mode: bool) -> (s: Self)
        requires
            page_count >= 1,
        ensures
            s.page_count == page_count,
            s.loop_mode == loop_mode,
    {
        PageSchedule { page_count, loop_mode }
    }

    /// Whether each page is announced with its number: when there is more
    /// than one.
    pub fn announces_pages(&self) -> (r: bool)
        ensures
            r == (self.page_count > 1),
    {
        self.page_count > 1
    }

    /// Whether success is reported after sending: only for a single page
    /// shown once.
    pub fn announces_success(&self) -> (r: bool)
        ensures
            r == (self.page_count == 1 && !self.loop_mode),
    {
        self.page_count == 1 && !self.loop_mode
    }

    /// Whether to pause after showing `page`: when there are several pages
    /// or the run loops, and this is not the last page of a run that ends.
    pub fn pauses_after(&self, page: usize) -> (r: bool)
        requires
            page < self.page_count,
        ensures
            r == ((self.page_count > 1 || self.loop_mode) && (page != self.page_count - 1
                || self.loop_mode)),
            r == (page + 1 < self.page_count || self.loop_mode),
    {
        let needs_delay = self.page_count > 1 || self.loop_mode;
        let is_last_page = page == self.page_count - 1;
        needs_delay && (!is_last_page || self.loop_mode)
    }

    /// The page shown after `page`: the next one, then the first again in
    /// loop mode; `None` when the run is over.
    pub fn next_page(&self, page: usize) -> (r: Option<usize>)
        requires
            page < self.page_count,
        ensures
            match r {
                Some(p) => self.spec_next_page(page as int) == Some(p as int),
                None => self.spec_next_page(page as int) is None,
            },
    {
        if page + 1 < self.page_count {
            Some(page + 1)
        } else if self.loop_mode {
            Some(0)
        } else {
            None
        }
    }

    /// The page shown at step `k` of the run, starting from the first page.
    pub open spec fn page_at_step(self, k: nat) -> Option<int>
        decreases k,
    {
        if k == 0 {
            Some(0)
        } else {
            match self.page_at_step((k - 1) as nat) {
                Some(p) => self.spec_next_page(p),
                None => None,
            }
        }
    }
}

/// A run that does not loop shows every page once, in order, and stops; a
/// looping run shows the pages round and round.
pub proof fn lemma_page_order(s: PageSchedule, k: nat)
    requires
        s.page_count >= 1,
    ensures
        !s.loop_mode ==> (k < s.page_count ==> s.page_at_step(k) == Some(k as int)),
        !s.loop_mode ==> (k >= s.page_count ==> s.page_at_step(k) is None),
        s.loop_mode ==> s.page_at_step(k) == Some(k as int % s.page_count as int),
    decreases k,
{
    if k > 0 {
        lemma_page_order(s, (k - 1) as nat);
        if s.loop_mode {
            let n = s.page_count as int;
            let prev = (k - 1) as int % n;
            vstd::arithmetic::div_mod::lemma_fundamental_div_mod((k - 1) as int, n);
            if prev + 1 < n {
                let q = (k - 1) as int / n;
                assert(k as int == q * n + (prev + 1)) by (nonlinear_arith)
                    requires
                        (k - 1) as int == n * q + prev,
                        k >= 1,
                ;
                vstd::arithmetic::div_mod::lemma_fundamental_div_mod_converse(
                    k as int,
                    n,
                    (k - 1) as int / n,
                    prev + 1,
                );
            } else {
                let q = (k - 1) as int / n;
                assert((q + 1) * n == n * q + n) by (nonlinear_arith);
                vstd::arithmetic::div_mod::lemma_fundamental_div_mod_converse(
                    k as int,
                    n,
                    (k - 1) as int / n + 1,
                    0,
                );
            }
        }
    }
}


/// The clock preset prints hours, minutes and seconds in that order; the
/// date-and-time preset prints year, month, day, then hours and minutes, in
/// that order; each runs `date`.
pub proof fn lemma_time_formats()
    ensures
        ({
            let clock = PresetName::Clock.spec_info().1;
            &&& clock.take(5) == seq!['d', 'a', 't', 'e', ' ']
            &&& exists|h: int, m: int, s: int|
                h < m < s && occurs_at(clock, seq!['%', 'H'], h) && occurs_at(
                    clock,
                    seq!['%', 'M'],
                    m,
                ) && occurs_at(clock, seq!['%', 'S'], s)
        }),
        ({
            let stamp = PresetName::DateTime.spec_info().1;
            &&& stamp.take(5) == seq!['d', 'a', 't', 'e', ' ']
            &&& exists|y: int, mo: int, d: int, h: int, mi: int|
                y < mo < d < h < mi && occurs_at(stamp, seq!['%', 'Y'], y) && occurs_at(
                    stamp,
                    seq!['%', 'm'],
                    mo,
                ) && occurs_at(stamp, seq!['%', 'd'], d) && occurs_at(stamp, seq!['%', 'H'], h)
                    && occurs_at(stamp, seq!['%', 'M'], mi)
        }),
{
    reveal_strlit("date '+%H:%M:%S'");
    reveal_strlit("date '+%Y-%m-%d %H:%M'");
    let clock = PresetName::Clock.spec_info().1;
    let stamp = PresetName::DateTime.spec_info().1;
    assert(clock.take(5) =~= seq!['d', 'a', 't', 'e', ' ']);
    assert(clock.subrange(7, 9) =~= seq!['%', 'H']);
    assert(clock.subrange(10, 12) =~= seq!['%', 'M']);
    assert(clock.subrange(13, 15) =~= seq!['%', 'S']);
    assert(occurs_at(clock, seq!['%', 'H'], 7) && occurs_at(clock, seq!['%', 'M'], 10) && occurs_at(
        clock,
        seq!['%', 'S'],
        13,
    ));
    assert(stamp.take(5) =~= seq!['d', 'a', 't', 'e', ' ']);
    assert(stamp.subrange(7, 9) =~= seq!['%', 'Y']);
    assert(stamp.subrange(10, 12) =~= seq!['%', 'm']);
    assert(stamp.subrange(13, 15) =~= seq!['%', 'd']);
    assert(stamp.subrange(16, 18) =~= seq!['%', 'H']);
    assert(stamp.subrange(19, 21) =~= seq!['%', 'M']);
    assert(occurs_at(stamp, seq!['%', 'Y'], 7) && occurs_at(stamp, seq!['%', 'm'], 10) && occurs_at(
        stamp,
        seq!['%', 'd'],
        13,
    ) && occurs_at(stamp, seq!['%', 'H'], 16) && occurs_at(stamp, seq!['%', 'M'], 19));
}

} // verus!
