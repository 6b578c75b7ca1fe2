//! Where the data lives: the folder and the files inside it.
//!
//! The running file and the lock file carry the machine name, so a data folder shared between two
//! machines through a file synchroniser keeps their running counters apart. A folder and what it
//! holds are joined as the platform joins them: with its separator, `/` or `\`, unless the folder
//! already ends in one.

use vstd::prelude::*;

use crate::calendar::{local_moment, moment_at, stamp_text};
use crate::session::line::{is_white, white};
use crate::text::{decimal, push_chars, push_str, push_u64, string_of, chars_of};

verus! {

/// The name used when neither the system nor the environment says what the machine is called.
pub const FALLBACK_MACHINE: &'static str = "machine";

/// The folders and files of one data store.
#[derive(Debug, Clone, PartialEq, Eq)]
pub struct Paths {
    /// The data folder; everything else sits under it.
    root: String,
    /// The machine name that goes into per-machine file names.
    machine: String,
    /// What the platform puts between a folder and what it holds.
    separator: char,
}

/// The folder and machine name of a store, as values.
pub struct PathsView {
    pub root: Seq<char>,
    pub machine: Seq<char>,
    pub separator: char,
}

impl View for Paths {
    type V = PathsView;

    closed spec fn view(&self) -> PathsView {
        PathsView { root: self.root@, machine: self.machine@, separator: self.separator }
    }
}

/// Where the leading white space of `s` from `i` on ends.
pub open spec fn leading_white(s: Seq<char>, i: int) -> int
    decreases s.len() - i,
{
    if i >= s.len() {
        s.len() as int
    } else if is_white(s[i]) {
        leading_white(s, i + 1)
    } else {
        i
    }
}

/// Where `s` ends once the white space at its end, down to `low`, is taken off.
pub open spec fn trailing_end(s: Seq<char>, j: int, low: int) -> int
    decreases j - low,
{
    if j <= low {
        low
    } else if is_white(s[j - 1]) {
        trailing_end(s, j - 1, low)
    } else {
        j
    }
}

/// `s` without the white space at either end.
pub open spec fn trimmed(s: Seq<char>) -> Seq<char> {
    let low = leading_white(s, 0);
    s.subrange(low, trailing_end(s, s.len() as int, low))
}

/// Whether `c` can stand in a file name as it is: an ASCII letter or digit, `_` or `-`.
pub open spec fn safe_char(c: char) -> bool {
    ('a' <= c && c <= 'z') || ('A' <= c && c <= 'Z') || ('0' <= c && c <= '9') || c == '_' || c == '-'
}

/// `raw` trimmed, with everything a file name should not carry replaced by `-`, or `machine` when
/// nothing is left.
pub open spec fn clean_name(raw: Seq<char>) -> Seq<char> {
    let t = trimmed(raw);
    if t.len() == 0 {
        FALLBACK_MACHINE@
    } else {
        Seq::new(t.len(), |i: int| if safe_char(t[i]) { t[i] } else { '-' })
    }
}

/// `name` inside the folder `folder`, on a platform whose separator is `separator`: the folder,
/// the separator unless the folder already ends in one (`/` counts everywhere), and the name.
pub open spec fn inside(folder: Seq<char>, name: Seq<char>, separator: char) -> Seq<char> {
    if folder.len() == 0 {
        name
    } else if folder.last() == '/' || folder.last() == separator {
        folder + name
    } else {
        folder + seq![separator] + name
    }
}

/// `std::path::MAIN_SEPARATOR`: the character the platform puts between a folder and what it
/// holds, which its documentation gives as `/` on Unix and `\` on Windows. Which one it is
/// depends on the platform the program was built for, so only that it is one of the two is
/// stated.
#[verifier::external_body]
fn main_separator() -> (separator: char)
    ensures
        separator == '/' || separator == '\\',
{
    std::path::MAIN_SEPARATOR
}

/// `v` in decimal, with zeros in front up to `width` characters.
pub open spec fn zero_padded(v: nat, width: nat) -> Seq<char> {
    let d = decimal(v);
    if d.len() < width {
        Seq::new((width - d.len()) as nat, |i: int| '0') + d
    } else {
        d
    }
}

/// `v` as `{:0width}` writes it: the sign counts towards the width.
pub open spec fn padded(v: int, width: nat) -> Seq<char> {
    if v < 0 {
        seq!['-'] + zero_padded((-v) as nat, if width > 0 { (width - 1) as nat } else { 0 })
    } else {
        zero_padded(v as nat, width)
    }
}

/// The name of a month's file, such as `2026-09.log`.
pub open spec fn month_name(year: i32, month: u8) -> Seq<char> {
    padded(year as int, 4) + seq!['-'] + padded(month as int, 2) + ".log"@
}

/// The name a broken running file is set aside under.
pub open spec fn broken_name(machine: Seq<char>, stamp: Seq<char>, attempt: u32) -> Seq<char> {
    "running-"@ + machine + "-broken-"@ + stamp + (if attempt > 1 { seq!['-'] + decimal(attempt as nat) } else { Seq::empty() })
        + ".toml"@
}

/// Appends `v` in decimal with zeros in front up to `width` characters.
fn push_zero_padded(out: &mut Vec<char>, v: u64, width: usize)
    ensures
        final(out)@ == old(out)@ + zero_padded(v as nat, width as nat),
{
    let mut digits: Vec<char> = Vec::new();
    push_u64(&mut digits, v);
    let ghost start = out@;
    if digits.len() < width {
        let mut k: usize = digits.len();
        while k < width
            invariant
                digits.len() <= k <= width,
                out@ == start + Seq::new((k - digits.len()) as nat, |i: int| '0'),
            decreases width - k,
        {
            out.push('0');
            k = k + 1;
            assert(out@ =~= start + Seq::new((k - digits.len()) as nat, |i: int| '0'));
        }
    }
    push_chars(out, &digits);
    assert(out@ =~= start + zero_padded(v as nat, width as nat));
}

/// Appends `v` as `{:0width}` writes it.
pub(crate) fn push_padded(out: &mut Vec<char>, v: i64, width: usize)
    requires
        width >= 1,
    ensures
        final(out)@ == old(out)@ + padded(v as int, width as nat),
{
    if v < 0 {
        out.push('-');
        let magnitude: u64 = if v == i64::MIN {
            9_223_372_036_854_775_808
        } else {
            (-v) as u64
        };
        let ghost mid = out@;
        push_zero_padded(out, magnitude, width - 1);
        assert(out@ =~= old(out)@ + padded(v as int, width as nat));
    } else {
        push_zero_padded(out, v as u64, width);
    }
}

/// The characters of `name` inside the folder `folder`, as a string.
fn path_inside(folder: &Vec<char>, name: &Vec<char>, separator: char) -> (path: String)
    ensures
        path@ == inside(folder@, name@, separator),
{
    let mut out: Vec<char> = Vec::new();
    push_chars(&mut out, folder);
    if folder.len() > 0 && folder[folder.len() - 1] != '/' && folder[folder.len() - 1] != separator {
        out.push(separator);
    }
    push_chars(&mut out, name);
    assert(out@ =~= inside(folder@, name@, separator));
    string_of(&out)
}

/// `raw` without the white space at either end.
pub fn trim(raw: &[char]) -> (t: Vec<char>)
    ensures
        t@ == trimmed(raw@),
{
    let mut low: usize = 0;
    while low < raw.len() && white(raw[low])
        invariant
            low <= raw@.len(),
            leading_white(raw@, 0) == leading_white(raw@, low as int),
        decreases raw@.len() - low,
    {
        low = low + 1;
    }
    let mut high: usize = raw.len();
    while high > low && white(raw[high - 1])
        invariant
            low <= high <= raw@.len(),
            leading_white(raw@, 0) == low,
            trailing_end(raw@, raw@.len() as int, low as int) == trailing_end(raw@, high as int, low as int),
        decreases high - low,
    {
        high = high - 1;
    }
    let mut t: Vec<char> = Vec::new();
    let mut i: usize = low;
    while i < high
        invariant
            low <= i <= high,
            high <= raw@.len(),
            t@ == raw@.subrange(low as int, i as int),
        decreases high - i,
    {
        t.push(raw[i]);
        i = i + 1;
        assert(t@ =~= raw@.subrange(low as int, i as int));
    }
    t
}

/// `raw` with everything a file name should not carry replaced by `-`, or `machine` when nothing
/// is left.
pub fn clean_machine_name(raw: &str) -> (name: String)
    ensures
        name@ == clean_name(raw@),
{
    let chars = chars_of(raw);
    let t = trim(chars.as_slice());
    if t.len() == 0 {
        return FALLBACK_MACHINE.to_string();
    }
    let mut out: Vec<char> = Vec::new();
    let mut i: usize = 0;
    while i < t.len()
        invariant
            i <= t@.len(),
            out@ == Seq::new(i as nat, |k: int| if safe_char(t@[k]) { t@[k] } else { '-' }),
        decreases t@.len() - i,
    {
        let c = t[i];
        let keep = ('a' <= c && c <= 'z') || ('A' <= c && c <= 'Z') || ('0' <= c && c <= '9') || c == '_' || c == '-';
        out.push(if keep { c } else { '-' });
        i = i + 1;
        assert(out@ =~= Seq::new(i as nat, |k: int| if safe_char(t@[k]) { t@[k] } else { '-' }));
    }
    string_of(&out)
}

impl Paths {
    /// The paths under a given folder for a given machine name.
    ///
    /// The machine name is cleaned with [`clean_machine_name`], so it is always safe in a file
    /// name.
    pub fn at(root: &str, machine: &str) -> (paths: Self)
        ensures
            paths@.root == root@,
            paths@.machine == clean_name(machine@),
            paths@.separator == '/' || paths@.separator == '\\',
    {
        Paths { root: root.to_string(), machine: clean_machine_name(machine), separator: main_separator() }
    }

    /// The data folder.
    pub fn root(&self) -> (root: &str)
        ensures
            root@ == self@.root,
    {
        self.root.as_str()
    }

    /// A file or folder directly inside the data folder.
    fn in_root(&self, name: &Vec<char>) -> (path: String)
        ensures
            path@ == inside(self@.root, name@, self@.separator),
    {
        let folder = chars_of(self.root.as_str());
        path_inside(&folder, name, self.separator)
    }

    /// The categories and focuses.
    pub fn tree_file(&self) -> (path: String)
        ensures
            path@ == inside(self@.root, "tree.toml"@, self@.separator),
    {
        self.in_root(&chars_of("tree.toml"))
    }

    /// The folder of the month files.
    pub fn sessions_dir(&self) -> (path: String)
        ensures
            path@ == inside(self@.root, "sessions"@, self@.separator),
    {
        self.in_root(&chars_of("sessions"))
    }

    /// The file sessions started in a given month are appended to, such as `sessions/2026-09.log`.
    pub fn month_file(&self, year: i32, month: u8) -> (path: String)
        ensures
            path@ == inside(inside(self@.root, "sessions"@, self@.separator), month_name(year, month), self@.separator),
    {
        let folder = chars_of(self.sessions_dir().as_str());
        path_inside(&folder, &month_name_of(year, month), self.separator)
    }

    /// The folder removed sessions are copied to before they are voided.
    pub fn trash_dir(&self) -> (path: String)
        ensures
            path@ == inside(self@.root, "trash"@, self@.separator),
    {
        self.in_root(&chars_of("trash"))
    }

    /// The trash file of a month, named like the month file whose sessions it keeps copies of.
    pub fn trash_file(&self, year: i32, month: u8) -> (path: String)
        ensures
            path@ == inside(inside(self@.root, "trash"@, self@.separator), month_name(year, month), self@.separator),
    {
        let folder = chars_of(self.trash_dir().as_str());
        path_inside(&folder, &month_name_of(year, month), self.separator)
    }

    /// The folder exported files are written to.
    pub fn export_dir(&self) -> (path: String)
        ensures
            path@ == inside(self@.root, "export"@, self@.separator),
    {
        self.in_root(&chars_of("export"))
    }

    /// The state of this machine's running counter.
    pub fn running_file(&self) -> (path: String)
        ensures
            path@ == inside(self@.root, "running-"@ + self@.machine + ".toml"@, self@.separator),
    {
        let mut name: Vec<char> = Vec::new();
        push_str(&mut name, "running-");
        push_str(&mut name, self.machine.as_str());
        push_str(&mut name, ".toml");
        self.in_root(&name)
    }

    /// Where this machine's running file goes when it cannot be read, such as
    /// `running-laptop-broken-2026-09-18-150000.toml` for a `stamp` from `broken_stamp`.
    ///
    /// It sits beside the running file, so moving it there is a rename within one folder: every
    /// byte is kept and nothing is copied. An `attempt` above 1 adds `-2`, `-3`, ... before the
    /// extension, so a second broken file in the same second does not take the first one's name.
    pub fn broken_running_file(&self, stamp: &str, attempt: u32) -> (path: String)
        ensures
            path@ == inside(self@.root, broken_name(self@.machine, stamp@, attempt), self@.separator),
    {
        let mut name: Vec<char> = Vec::new();
        push_str(&mut name, "running-");
        push_str(&mut name, self.machine.as_str());
        push_str(&mut name, "-broken-");
        push_str(&mut name, stamp);
        if attempt > 1 {
            name.push('-');
            push_u64(&mut name, attempt as u64);
        }
        push_str(&mut name, ".toml");
        assert(name@ =~= broken_name(self@.machine, stamp@, attempt));
        self.in_root(&name)
    }

    /// When a command last saw this machine's counter alive, for a counter nobody measures.
    pub fn seen_file(&self) -> (path: String)
        ensures
            path@ == inside(self@.root, "seen-"@ + self@.machine + ".toml"@, self@.separator),
    {
        let mut name: Vec<char> = Vec::new();
        push_str(&mut name, "seen-");
        push_str(&mut name, self.machine.as_str());
        push_str(&mut name, ".toml");
        self.in_root(&name)
    }

    /// The file this machine's instances take the lock on.
    pub fn lock_file(&self) -> (path: String)
        ensures
            path@ == inside(self@.root, "qfocus-"@ + self@.machine + ".lock"@, self@.separator),
    {
        let mut name: Vec<char> = Vec::new();
        push_str(&mut name, "qfocus-");
        push_str(&mut name, self.machine.as_str());
        push_str(&mut name, ".lock");
        self.in_root(&name)
    }
}

/// The name of a month's file, as characters.
fn month_name_of(year: i32, month: u8) -> (name: Vec<char>)
    ensures
        name@ == month_name(year, month),
{
    let mut name: Vec<char> = Vec::new();
    push_padded(&mut name, year as i64, 4);
    name.push('-');
    push_padded(&mut name, month as i64, 2);
    push_str(&mut name, ".log");
    assert(name@ =~= month_name(year, month));
    name
}

/// A moment as `YYYY-MM-DD-HHMMSS` in local time, for [`Paths::broken_running_file`].
///
/// Local time, because the person looks for the file by when they opened the app; no `:`, because
/// some file systems refuse it in a name.
pub fn broken_stamp(seconds: i64, offset_minutes: i16) -> (stamp: String)
    ensures
        stamp@ == stamp_text(moment_at(seconds, offset_minutes)),
{
    let m = local_moment(seconds, offset_minutes);
    let mut out: Vec<char> = Vec::new();
    push_padded(&mut out, m.year as i64, 4);
    out.push('-');
    push_padded(&mut out, m.month as i64, 2);
    out.push('-');
    push_padded(&mut out, m.day as i64, 2);
    out.push('-');
    push_padded(&mut out, m.hour as i64, 2);
    push_padded(&mut out, m.minute as i64, 2);
    push_padded(&mut out, m.second as i64, 2);
    assert(out@ =~= stamp_text(m));
    string_of(&out)
}

/// The machine name that goes into the running file's name, `running-` and the name and
/// `.toml` inside the data folder, is never empty and holds nothing but ASCII letters, digits,
/// `_` and `-`, whatever the system or the person called the machine.
pub proof fn law_the_machine_name_is_safe_in_a_file_name(machine: Seq<char>)
    ensures
        clean_name(machine).len() > 0,
        forall|i: int| 0 <= i < clean_name(machine).len() ==> safe_char(#[trigger] clean_name(machine)[i]),
{
    reveal_strlit("machine");
}

} // verus!
