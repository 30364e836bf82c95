use vstd::prelude::*;
use vstd::string::{StrSliceExecFns, StringExecFns};
use crate::decimal::{parse_decimal, parsed_decimal};
use crate::method::VotingMethod;
use crate::session::{Session, SetupError, Phase, MAX_CHOICES, label_kept};

verus! {

/// How long a vote runs unless set otherwise: an hour and a half.
pub const DEFAULT_TIMEOUT_SECS: u64 = 5400;

/// The shortest and longest vote, in ten-thousandths of an hour (0.01 and 144 hours).
pub const MIN_TIMEOUT_HOURS: i64 = 100;

pub const MAX_TIMEOUT_HOURS: i64 = 1440000;

/// A vote being set up, before it starts.
#[derive(Debug)]
pub struct VoteInfo {
    pub kind: VotingMethod,
    pub prompt: String,
    /// Whether participants may suggest choices before the vote starts.
    pub take_sugs: bool,
    pub show_at_timeout: bool,
    /// Whether a participant may submit only once.
    pub vote_once: bool,
    /// Who is pinged when the vote starts: nobody, those online, or everyone.
    pub ping_chan: u8,
    pub timeout_secs: u64,
    pub vals: Vec<String>,
}

pub open spec fn ping_text(p: u8) -> Seq<char> {
    if p == 0 {
        ""@
    } else if p == 1 {
        "@here "@
    } else {
        "@everyone "@
    }
}

/// The text with a line break added at its end, unless it is empty or ends in one.
pub open spec fn prompt_text(t: Seq<char>) -> Seq<char> {
    if t.len() > 0 && t.last() != '\n' {
        t.push('\n')
    } else {
        t
    }
}

/// How many characters `t` has before its first line break.
pub open spec fn line_len(t: Seq<char>) -> nat
    decreases t.len(),
{
    if t.len() > 0 && t[0] != '\n' {
        1 + line_len(t.skip(1))
    } else {
        0
    }
}

/// The lines of `t`, split at each line break.
pub open spec fn lines_of(t: Seq<char>) -> Seq<Seq<char>>
    decreases t.len(),
{
    let k = line_len(t);
    if k >= t.len() {
        seq![t]
    } else {
        seq![t.take(k as int)] + lines_of(t.skip((k + 1) as int))
    }
}

/// A character of Unicode's White_Space property, which `char::is_whitespace` tests.
pub open spec fn is_white_space(c: char) -> bool {
    ('\u{9}' <= c && c <= '\u{d}') || c == ' ' || c == '\u{85}' || c == '\u{a0}' || c
        == '\u{1680}' || ('\u{2000}' <= c && c <= '\u{200a}') || c == '\u{2028}' || c
        == '\u{2029}' || c == '\u{202f}' || c == '\u{205f}' || c == '\u{3000}'
}

pub open spec fn trim_front(s: Seq<char>) -> Seq<char>
    decreases s.len(),
{
    if s.len() > 0 && is_white_space(s[0]) {
        trim_front(s.skip(1))
    } else {
        s
    }
}

pub open spec fn trim_back(s: Seq<char>) -> Seq<char>
    decreases s.len(),
{
    if s.len() > 0 && is_white_space(s.last()) {
        trim_back(s.drop_last())
    } else {
        s
    }
}

/// Text with white space at both ends removed.
pub open spec fn trimmed(s: Seq<char>) -> Seq<char> {
    trim_back(trim_front(s))
}

pub open spec fn choice_lines(t: Seq<char>) -> Seq<Seq<char>> {
    lines_of(t).map_values(|l: Seq<char>| trimmed(l))
}

pub open spec fn texts(v: Seq<String>) -> Seq<Seq<char>> {
    v.map_values(|s: String| s@)
}

/// `base` with each of `items` added, in order, unless it is already there.
pub open spec fn merged(base: Seq<Seq<char>>, items: Seq<Seq<char>>) -> Seq<Seq<char>>
    decreases items.len(),
{
    if items.len() == 0 {
        base
    } else {
        let prev = merged(base, items.drop_last());
        if prev.contains(items.last()) {
            prev
        } else {
            prev.push(items.last())
        }
    }
}

/// Relies on `str::trim`: the text without its leading and trailing White_Space characters.
#[verifier::external_body]
fn trim_text(s: &str) -> (r: String)
    ensures
        r@ == trimmed(s@),
{
    s.trim().to_string()
}

proof fn lemma_line_len(t: Seq<char>, i: int)
    requires
        0 <= i <= line_len(t),
    ensures
        line_len(t) <= t.len(),
        forall|j: int| 0 <= j < i ==> t[j] != '\n',
    decreases t.len(),
{
    if t.len() > 0 && t[0] != '\n' {
        if i > 0 {
            lemma_line_len(t.skip(1), i - 1);
            assert forall|j: int| 0 <= j < i implies t[j] != '\n' by {
                if j > 0 {
                    assert(t[j] == t.skip(1)[j - 1]);
                }
            }
        } else {
            lemma_line_len(t.skip(1), 0);
        }
    }
}

/// Where the line of `text` that starts at `start` ends.
fn line_end(text: &str, start: usize) -> (k: usize)
    requires
        start <= text@.len(),
    ensures
        start <= k <= text@.len(),
        k - start == line_len(text@.skip(start as int)),
{
    let ghost t = text@;
    let len = text.unicode_len();
    let mut k: usize = start;
    proof {
        assert(t.skip(start as int).skip(0) =~= t.skip(start as int));
    }
    while k < len && text.get_char(k) != '\n'
        invariant
            start <= k <= len,
            len == t.len(),
            t == text@,
            line_len(t.skip(start as int)) == (k - start) + line_len(t.skip(k as int)),
        decreases len - k,
    {
        proof {
            assert(t.skip(k as int)[0] == t[k as int]);
            assert(t.skip(k as int).skip(1) =~= t.skip(k + 1));
        }
        k = k + 1;
    }
    proof {
        if k < len {
            assert(t.skip(k as int)[0] == t[k as int]);
        }
        assert(line_len(t.skip(k as int)) == 0);
    }
    k
}

/// The lines of `text`, each without white space at its ends.
pub fn split_choices(text: &str) -> (r: Vec<String>)
    ensures
        texts(r@) == choice_lines(text@),
{
    let ghost t = text@;
    let len = text.unicode_len();
    let mut out: Vec<String> = Vec::new();
    let ghost mut done: Seq<Seq<char>> = seq![];
    let mut start: usize = 0;
    let mut finished = false;
    proof {
        assert(t.skip(0) =~= t);
    }
    while !finished
        invariant
            len == t.len(),
            t == text@,
            start <= len,
            texts(out@) == done.map_values(|l: Seq<char>| trimmed(l)),
            finished ==> lines_of(t) == done,
            !finished ==> lines_of(t) == done + lines_of(t.skip(start as int)),
        decreases len - start + if finished {
            0int
        } else {
            1
        },
    {
        let end = line_end(text, start);
        let piece = text.substring_char(start, end);
        let line = trim_text(piece);
        let ghost rest = t.skip(start as int);
        let ghost prev_out = out@;
        let ghost prev_done = done;
        proof {
            lemma_line_len(rest, 0);
            assert(piece@ =~= rest.take((end - start) as int));
            done = done.push(piece@);
        }
        out.push(line);
        proof {
            assert(texts(out@) =~= texts(prev_out).push(line@));
            assert(done.map_values(|l: Seq<char>| trimmed(l)) =~= prev_done.map_values(
                |l: Seq<char>| trimmed(l),
            ).push(trimmed(piece@)));
        }
        if end == len {
            proof {
                assert(rest.take((end - start) as int) =~= rest);
                assert(lines_of(rest) == seq![rest]);
                assert(lines_of(t) =~= done);
            }
            finished = true;
        } else {
            proof {
                assert(rest.skip((end - start) + 1) =~= t.skip(end + 1));
                assert(lines_of(t) =~= done + lines_of(t.skip(end + 1)));
            }
            start = end + 1;
        }
    }
    out
}

fn position_of(v: &Vec<String>, s: &String) -> (r: bool)
    ensures
        r == texts(v@).contains(s@),
{
    let mut i: usize = 0;
    while i < v.len()
        invariant
            i <= v.len(),
            forall|j: int| 0 <= j < i ==> v@[j]@ != s@,
        decreases v.len() - i,
    {
        if v[i] == *s {
            proof {
                assert(texts(v@)[i as int] == s@);
            }
            return true;
        }
        i = i + 1;
    }
    proof {
        if texts(v@).contains(s@) {
            let j = choose|j: int| 0 <= j < texts(v@).len() && texts(v@)[j] == s@;
            assert(v@[j]@ == s@);
        }
    }
    false
}

/// `b` has `a`'s method and yes-or-no settings.
pub open spec fn same_flags(a: VoteInfo, b: VoteInfo) -> bool {
    &&& b.kind == a.kind
    &&& b.take_sugs == a.take_sugs
    &&& b.show_at_timeout == a.show_at_timeout
    &&& b.vote_once == a.vote_once
}

impl VoteInfo {
    pub open spec fn wf(&self) -> bool {
        self.ping_chan <= 2
    }

    /// A new setup: approval, no prompt, no suggestions, results at the close, resubmission
    /// allowed, no ping, the default length and no choices.
    pub fn new() -> (r: VoteInfo)
        ensures
            r.wf(),
            r.kind == VotingMethod::Approval,
            r.prompt@.len() == 0,
            !r.take_sugs,
            r.show_at_timeout,
            !r.vote_once,
            r.ping_chan == 0,
            r.timeout_secs == DEFAULT_TIMEOUT_SECS,
            r.vals@.len() == 0,
    {
        VoteInfo {
            kind: VotingMethod::Approval,
            prompt: String::new(),
            take_sugs: false,
            show_at_timeout: true,
            vote_once: false,
            ping_chan: 0,
            timeout_secs: DEFAULT_TIMEOUT_SECS,
            vals: Vec::new(),
        }
    }

    /// Whether the vote can be started: it has two choices, or takes suggestions.
    pub fn submittable(&self) -> (r: bool)
        ensures
            r == (self.vals@.len() > 1 || self.take_sugs),
    {
        self.vals.len() > 1 || self.take_sugs
    }

    /// The mention that opens the vote's message.
    pub fn get_ping(&self) -> (r: String)
        requires
            self.wf(),
        ensures
            r@ == ping_text(self.ping_chan),
    {
        if self.ping_chan == 0 {
            "".to_string()
        } else if self.ping_chan == 1 {
            "@here ".to_string()
        } else {
            "@everyone ".to_string()
        }
    }

    /// Moves on to the next ping setting, back to none after everyone.
    pub fn next_ping(&mut self)
        requires
            old(self).wf(),
        ensures
            final(self).wf(),
            final(self).ping_chan == if old(self).ping_chan >= 2 {
                0
            } else {
                old(self).ping_chan + 1
            },
            same_flags(*old(self), *final(self)),
            final(self).prompt == old(self).prompt,
            final(self).timeout_secs == old(self).timeout_secs,
            final(self).vals == old(self).vals,
    {
        if self.ping_chan >= 2 {
            self.ping_chan = 0;
        } else {
            self.ping_chan = self.ping_chan + 1;
        }
    }

    /// Sets the prompt, ending it with a line break.
    pub fn set_prompt(&mut self, text: &str)
        ensures
            final(self).prompt@ == prompt_text(text@),
            same_flags(*old(self), *final(self)),
            final(self).ping_chan == old(self).ping_chan,
            final(self).timeout_secs == old(self).timeout_secs,
            final(self).vals == old(self).vals,
    {
        let mut p = text.to_string();
        let len = text.unicode_len();
        if len > 0 && text.get_char(len - 1) != '\n' {
            p.append("\n");
            proof {
                reveal_strlit("\n");
                assert(p@ =~= text@.push('\n'));
            }
        }
        self.prompt = p;
    }

    /// Sets the length of the vote from a number of hours; refused unless it reads as a number
    /// from 0.01 to 144.
    pub fn set_timeout(&mut self, text: &str) -> (r: bool)
        ensures
            r == (parsed_decimal(text@) matches Some(h) && MIN_TIMEOUT_HOURS <= h
                <= MAX_TIMEOUT_HOURS),
            r ==> (parsed_decimal(text@) matches Some(h) && final(self).timeout_secs == h * 36
                / 100),
            !r ==> final(self).timeout_secs == old(self).timeout_secs,
            same_flags(*old(self), *final(self)),
            final(self).prompt == old(self).prompt,
            final(self).ping_chan == old(self).ping_chan,
            final(self).vals == old(self).vals,
    {
        match parse_decimal(text) {
            Some(h) => {
                if MIN_TIMEOUT_HOURS <= h && h <= MAX_TIMEOUT_HOURS {
                    self.timeout_secs = (h as u64) * 36 / 100;
                    true
                } else {
                    false
                }
            },
            None => false,
        }
    }

    /// Replaces the choices with the lines of `text`.
    pub fn set_choices(&mut self, text: &str)
        ensures
            texts(final(self).vals@) == choice_lines(text@),
            same_flags(*old(self), *final(self)),
            final(self).prompt == old(self).prompt,
            final(self).ping_chan == old(self).ping_chan,
            final(self).timeout_secs == old(self).timeout_secs,
    {
        self.vals = split_choices(text);
    }

    /// Takes suggested choices: the author's replace them all, anyone else's are added unless
    /// already there.
    pub fn add_suggestions(&mut self, text: &str, from_author: bool)
        ensures
            from_author ==> texts(final(self).vals@) == choice_lines(text@),
            !from_author ==> texts(final(self).vals@) == merged(
                texts(old(self).vals@),
                choice_lines(text@),
            ),
            same_flags(*old(self), *final(self)),
            final(self).prompt == old(self).prompt,
            final(self).ping_chan == old(self).ping_chan,
            final(self).timeout_secs == old(self).timeout_secs,
    {
        let lines = split_choices(text);
        if from_author {
            self.vals = lines;
            return;
        }
        let ghost base = texts(self.vals@);
        let mut i: usize = 0;
        while i < lines.len()
            invariant
                i <= lines.len(),
                texts(self.vals@) == merged(base, texts(lines@).take(i as int)),
                same_flags(*old(self), *self),
                self.prompt == old(self).prompt,
                self.ping_chan == old(self).ping_chan,
                self.timeout_secs == old(self).timeout_secs,
            decreases lines.len() - i,
        {
            let have = position_of(&self.vals, &lines[i]);
            proof {
                assert(texts(lines@).take(i + 1).drop_last() =~= texts(lines@).take(i as int));
            }
            if !have {
                let ghost prev = self.vals@;
                let item = lines[i].clone();
                self.vals.push(item);
                proof {
                    assert(texts(self.vals@) =~= texts(prev).push(texts(lines@)[i as int]));
                }
            }
            i = i + 1;
        }
        proof {
            assert(texts(lines@).take(lines@.len() as int) =~= texts(lines@));
        }
    }

    /// Starts the session this setup describes.
    pub fn into_session(self) -> (r: Result<Session, SetupError>)
        ensures
            self.vals@.len() < 2 ==> r == Err::<Session, SetupError>(SetupError::TooFewChoices),
            self.vals@.len() > MAX_CHOICES ==> r == Err::<Session, SetupError>(
                SetupError::TooManyChoices,
            ),
            2 <= self.vals@.len() <= MAX_CHOICES ==> (r matches Ok(s) && s.wf() && s.method
                == self.kind && s.choices@.len() == self.vals@.len() && (forall|i: int|
                0 <= i < self.vals@.len() ==> #[trigger] s.choices@[i]@ == label_kept(
                    self.vals@[i]@,
                )) && s.allow_resubmission == !self.vote_once && s.show_result_on_close
                == self.show_at_timeout && s.participants@.len() == 0 && s.voters@.len() == 0
                && s.phase == Phase::Open),
    {
        Session::new(self.kind, self.vals, !self.vote_once, self.show_at_timeout)
    }
}

} // verus!
