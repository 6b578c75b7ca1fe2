//! Sessions: what a person worked on, when, and for how long.

pub mod edit;
pub mod line;
pub mod chains;
pub mod resolve;
pub mod round_trip;

use vstd::prelude::*;

use crate::id::Id;
use crate::span::{Span, work_of, work_seconds};
use crate::text::{chars_are, chars_of};

verus! {

/// Where a session came from.
#[derive(Debug, Clone, Copy, PartialEq, Eq, Structural)]
pub enum Source {
    /// Measured by the running timer.
    Timer,
    /// Typed in by hand after the fact.
    Manual,
    /// Brought back after the program stopped while the timer was running.
    Recovered,
    /// A correction of an earlier record.
    Edited,
}

/// The word a source is written as.
pub open spec fn source_word(source: Source) -> Seq<char> {
    match source {
        Source::Timer => "timer"@,
        Source::Manual => "manual"@,
        Source::Recovered => "recovered"@,
        Source::Edited => "edited"@,
    }
}

/// The source a word names.
pub open spec fn source_named(word: Seq<char>) -> Option<Source> {
    if word == "timer"@ {
        Some(Source::Timer)
    } else if word == "manual"@ {
        Some(Source::Manual)
    } else if word == "recovered"@ {
        Some(Source::Recovered)
    } else if word == "edited"@ {
        Some(Source::Edited)
    } else {
        None
    }
}

impl Source {
    /// The word written in a file.
    pub fn as_str(self) -> (word: &'static str)
        ensures
            word@ == source_word(self),
    {
        match self {
            Self::Timer => "timer",
            Self::Manual => "manual",
            Self::Recovered => "recovered",
            Self::Edited => "edited",
        }
    }

    /// Reads the word written in a file.
    pub fn parse(text: &str) -> (source: Option<Self>)
        ensures
            source == source_named(text@),
    {
        let chars = chars_of(text);
        Self::parse_chars(&chars)
    }

    /// Reads the word written in a file, given as characters.
    pub fn parse_chars(text: &[char]) -> (source: Option<Self>)
        ensures
            source == source_named(text@),
    {
        if chars_are(text, "timer") {
            Some(Self::Timer)
        } else if chars_are(text, "manual") {
            Some(Self::Manual)
        } else if chars_are(text, "recovered") {
            Some(Self::Recovered)
        } else if chars_are(text, "edited") {
            Some(Self::Edited)
        } else {
            None
        }
    }
}

/// Something worth saying about a session besides its time.
#[derive(Debug, Clone, Copy, PartialEq, Eq, Structural)]
pub enum Flag {
    /// The system clock moved while the session ran, so its stamps may be off.
    SuspectClock,
    /// The session ran longer than the ceiling and has not been confirmed.
    OverCeiling,
    /// It holds idle time the person has not said what to do with.
    UnclaimedIdle,
}

/// The word a flag is written as.
pub open spec fn flag_word(flag: Flag) -> Seq<char> {
    match flag {
        Flag::SuspectClock => "suspect-clock"@,
        Flag::OverCeiling => "over-ceiling"@,
        Flag::UnclaimedIdle => "unclaimed-idle"@,
    }
}

/// The flag a word names.
pub open spec fn flag_named(word: Seq<char>) -> Option<Flag> {
    if word == "suspect-clock"@ {
        Some(Flag::SuspectClock)
    } else if word == "over-ceiling"@ {
        Some(Flag::OverCeiling)
    } else if word == "unclaimed-idle"@ {
        Some(Flag::UnclaimedIdle)
    } else {
        None
    }
}

impl Flag {
    /// The word written in a file.
    pub fn as_str(self) -> (word: &'static str)
        ensures
            word@ == flag_word(self),
    {
        match self {
            Self::SuspectClock => "suspect-clock",
            Self::OverCeiling => "over-ceiling",
            Self::UnclaimedIdle => "unclaimed-idle",
        }
    }

    /// Reads the word written in a file.
    pub fn parse(text: &str) -> (flag: Option<Self>)
        ensures
            flag == flag_named(text@),
    {
        let chars = chars_of(text);
        Self::parse_chars(&chars)
    }

    /// Reads the word written in a file, given as characters.
    pub fn parse_chars(text: &[char]) -> (flag: Option<Self>)
        ensures
            flag == flag_named(text@),
    {
        if chars_are(text, "suspect-clock") {
            Some(Self::SuspectClock)
        } else if chars_are(text, "over-ceiling") {
            Some(Self::OverCeiling)
        } else if chars_are(text, "unclaimed-idle") {
            Some(Self::UnclaimedIdle)
        } else {
            None
        }
    }
}

/// Every source reads back from the word it is written as.
pub proof fn law_a_source_reads_back_from_its_word(source: Source)
    ensures
        source_named(source_word(source)) == Some(source),
{
    reveal_strlit("timer");
    reveal_strlit("manual");
    reveal_strlit("recovered");
    reveal_strlit("edited");
    assert("timer"@.len() == 5 && "manual"@.len() == 6 && "recovered"@.len() == 9 && "edited"@.len() == 6);
    assert("manual"@[0] == 'm' && "edited"@[0] == 'e');
    assert("timer"@ != "manual"@);
    assert("timer"@ != "recovered"@);
    assert("timer"@ != "edited"@);
    assert("manual"@ != "recovered"@);
    assert("manual"@ != "edited"@);
    assert("recovered"@ != "edited"@ && "recovered"@.len() == 9);
}

/// Every flag reads back from the word it is written as.
pub proof fn law_a_flag_reads_back_from_its_word(flag: Flag)
    ensures
        flag_named(flag_word(flag)) == Some(flag),
{
    reveal_strlit("suspect-clock");
    reveal_strlit("over-ceiling");
    reveal_strlit("unclaimed-idle");
    assert("suspect-clock"@.len() == 13 && "over-ceiling"@.len() == 12 && "unclaimed-idle"@.len() == 14);
    assert("suspect-clock"@ != "over-ceiling"@);
    assert("suspect-clock"@ != "unclaimed-idle"@);
    assert("over-ceiling"@ != "unclaimed-idle"@);
}

/// One recorded stretch of work.
#[derive(Debug, Clone, PartialEq, Eq)]
pub struct Session {
    /// Its own identifier.
    pub id: Id,
    /// Which version of this record it is; the highest one wins.
    pub revision: u32,
    /// When the record was written, in seconds since the Unix epoch.
    pub written: i64,
    /// The focus it belongs to.
    pub focus: Id,
    /// When it began, in seconds since the Unix epoch.
    pub started: i64,
    /// Minutes the local time was ahead of UTC when it began.
    pub offset_minutes: i16,
    /// When it ended, in seconds since the Unix epoch.
    pub ended: i64,
    /// What happened during it, in order.
    pub spans: Vec<Span>,
    /// Where it came from.
    pub source: Source,
    /// The record this one replaces, if any.
    pub replaces: Option<Id>,
    /// The record this one takes out of the lists, if any.
    pub voids: Option<Id>,
    /// The record this one carries on from, when a session was split.
    pub continues: Option<Id>,
    /// Anything worth saying about it.
    pub flags: Vec<Flag>,
    /// A line the person wrote.
    pub note: String,
}

/// A session as the values it holds.
pub struct SessionView {
    pub id: Id,
    pub revision: u32,
    pub written: i64,
    pub focus: Id,
    pub started: i64,
    pub offset_minutes: i16,
    pub ended: i64,
    pub spans: Seq<Span>,
    pub source: Source,
    pub replaces: Option<Id>,
    pub voids: Option<Id>,
    pub continues: Option<Id>,
    pub flags: Seq<Flag>,
    pub note: Seq<char>,
}

impl View for Session {
    type V = SessionView;

    open spec fn view(&self) -> SessionView {
        SessionView {
            id: self.id,
            revision: self.revision,
            written: self.written,
            focus: self.focus,
            started: self.started,
            offset_minutes: self.offset_minutes,
            ended: self.ended,
            spans: self.spans@,
            source: self.source,
            replaces: self.replaces,
            voids: self.voids,
            continues: self.continues,
            flags: self.flags@,
            note: self.note@,
        }
    }
}

impl Session {
    /// Seconds of work it holds. Breaks, sleep and unclaimed idle time are not counted.
    pub fn work_seconds(&self) -> (seconds: u64)
        requires
            work_of(self.spans@) <= u64::MAX,
        ensures
            seconds == work_of(self.spans@),
    {
        work_seconds(self.spans.as_slice())
    }

    /// A copy of the session, field for field.
    pub fn copy(&self) -> (copy: Session)
        ensures
            copy@ == self@,
    {
        Session {
            id: self.id,
            revision: self.revision,
            written: self.written,
            focus: self.focus,
            started: self.started,
            offset_minutes: self.offset_minutes,
            ended: self.ended,
            spans: copy_spans(&self.spans),
            source: self.source,
            replaces: self.replaces,
            voids: self.voids,
            continues: self.continues,
            flags: copy_flags(&self.flags),
            note: self.note.clone(),
        }
    }
}

/// The spans `spans`, in a vector of their own.
pub fn copy_spans(spans: &Vec<Span>) -> (copy: Vec<Span>)
    ensures
        copy@ == spans@,
{
    let mut copy: Vec<Span> = Vec::new();
    let mut i: usize = 0;
    while i < spans.len()
        invariant
            i <= spans@.len(),
            copy@ == spans@.subrange(0, i as int),
        decreases spans@.len() - i,
    {
        copy.push(spans[i]);
        i = i + 1;
        assert(copy@ =~= spans@.subrange(0, i as int));
    }
    assert(spans@.subrange(0, spans@.len() as int) =~= spans@);
    copy
}

/// The characters `chars`, in a vector of their own.
pub fn copy_chars(chars: &Vec<char>) -> (copy: Vec<char>)
    ensures
        copy@ == chars@,
{
    let mut copy: Vec<char> = Vec::new();
    let mut i: usize = 0;
    while i < chars.len()
        invariant
            i <= chars@.len(),
            copy@ == chars@.subrange(0, i as int),
        decreases chars@.len() - i,
    {
        copy.push(chars[i]);
        i = i + 1;
        assert(copy@ =~= chars@.subrange(0, i as int));
    }
    assert(chars@.subrange(0, chars@.len() as int) =~= chars@);
    copy
}

/// The flags `flags`, in a vector of their own.
pub fn copy_flags(flags: &Vec<Flag>) -> (copy: Vec<Flag>)
    ensures
        copy@ == flags@,
{
    let mut copy: Vec<Flag> = Vec::new();
    let mut i: usize = 0;
    while i < flags.len()
        invariant
            i <= flags@.len(),
            copy@ == flags@.subrange(0, i as int),
        decreases flags@.len() - i,
    {
        copy.push(flags[i]);
        i = i + 1;
        assert(copy@ =~= flags@.subrange(0, i as int));
    }
    assert(flags@.subrange(0, flags@.len() as int) =~= flags@);
    copy
}

} // verus!
