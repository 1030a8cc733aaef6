use vstd::prelude::*;
use vstd::string::*;

use crate::tui::tv::NodeLines;

verus! {

/// What `str::trim` makes of a string.
pub uninterp spec fn trim_of(s: Seq<char>) -> Seq<char>;

/// Each NUL of `s` turned into a space.
pub open spec fn nul_to_space(s: Seq<char>) -> Seq<char> {
    s.map_values(|c: char| if c == '\0' { ' ' } else { c })
}

/// A command line as read from the process, NUL-separated, made readable:
/// separators become spaces and surrounding whitespace goes.
pub open spec fn cleaned_cmdline(raw: Seq<char>) -> Seq<char> {
    trim_of(nul_to_space(raw))
}

/// Relies on `str::replace`: every occurrence of the pattern is replaced,
/// here each NUL character by one space.
#[verifier::external_body]
fn replace_nul(s: &str) -> (r: String)
    ensures
        r@ == nul_to_space(s@),
{
    s.replace('\0', " ")
}

/// Relies on `str::trim`: the result depends on the characters alone.
#[verifier::external_body]
fn trimmed(s: &str) -> (r: String)
    ensures
        r@ == trim_of(s@),
{
    s.trim().to_string()
}

/// The index of the first line feed at or after `i`, or the length of `s`.
pub open spec fn line_end(s: Seq<char>, i: int) -> int
    decreases s.len() - i,
{
    if i >= s.len() {
        s.len() as int
    } else if s[i] == '\n' {
        i
    } else {
        line_end(s, i + 1)
    }
}

/// The line of `s` that starts at `i` and ends at `e`, without the carriage
/// return of a CRLF ending.
pub open spec fn line_at(s: Seq<char>, i: int, e: int) -> Seq<char> {
    if e < s.len() && e > i && s[e - 1] == '\r' {
        s.subrange(i, e - 1)
    } else {
        s.subrange(i, e)
    }
}

/// The lines of `s` from position `i` on. Lines end at a line feed or a
/// CRLF pair; a final line ending adds no empty line.
pub open spec fn lines_from(s: Seq<char>, i: int) -> Seq<Seq<char>>
    decreases s.len() - i,
{
    if i < 0 || i >= s.len() {
        seq![]
    } else {
        let e = line_end(s, i);
        if e < i {
            seq![]
        } else if e < s.len() {
            seq![line_at(s, i, e)] + lines_from(s, e + 1)
        } else {
            seq![line_at(s, i, e)]
        }
    }
}

/// The lines of a text.
pub open spec fn text_lines(s: Seq<char>) -> Seq<Seq<char>> {
    lines_from(s, 0)
}

proof fn lemma_line_end_bounds(s: Seq<char>, i: int)
    requires
        0 <= i <= s.len(),
    ensures
        i <= line_end(s, i) <= s.len(),
        line_end(s, i) < s.len() ==> s[line_end(s, i)] == '\n',
    decreases s.len() - i,
{
    if i < s.len() && s[i] != '\n' {
        lemma_line_end_bounds(s, i + 1);
    }
}

/// Splits a text into its lines.
pub fn split_lines(s: &str) -> (r: Vec<String>)
    ensures
        r@.map_values(|l: String| l@) == text_lines(s@),
{
    let n = s.unicode_len();
    let mut out: Vec<String> = Vec::new();
    let mut start: usize = 0;
    while start < n
        invariant
            n == s@.len(),
            0 <= start <= n,
            out@.map_values(|l: String| l@) + lines_from(s@, start as int) == text_lines(s@),
        decreases n - start,
    {
        let mut j: usize = start;
        while j < n && s.get_char(j) != '\n'
            invariant
                n == s@.len(),
                start <= j <= n,
                line_end(s@, start as int) == line_end(s@, j as int),
            decreases n - j,
        {
            j = j + 1;
        }
        proof {
            lemma_line_end_bounds(s@, start as int);
        }
        let ghost e = j as int;
        assert(line_end(s@, start as int) == e);
        let stop = if j < n && j > start && s.get_char(j - 1) == '\r' {
            j - 1
        } else {
            j
        };
        let line = String::from_str(s.substring_char(start, stop));
        assert(line@ == line_at(s@, start as int, e));
        let ghost o = out@.map_values(|l: String| l@);
        out.push(line);
        assert(out@.map_values(|l: String| l@) =~= o.push(line@));
        if j >= n {
            assert(lines_from(s@, start as int) == seq![line@]);
            assert(out@.map_values(|l: String| l@) =~= text_lines(s@));
            return out;
        }
        assert(lines_from(s@, start as int) == seq![line@] + lines_from(s@, e + 1));
        assert(o.push(line@) + lines_from(s@, e + 1) =~= o + (seq![line@] + lines_from(s@, e + 1)));
        start = j + 1;
    }
    assert(lines_from(s@, start as int) == Seq::<Seq<char>>::empty());
    assert(out@.map_values(|l: String| l@) =~= text_lines(s@));
    out
}

/// What the tracer knows of one process.
#[derive(Debug)]
pub struct ProcessData {
    pid: i32,
    cmdline: String,
}

impl ProcessData {
    pub closed spec fn spec_pid(&self) -> i32 {
        self.pid
    }

    pub closed spec fn spec_cmdline(&self) -> Seq<char> {
        self.cmdline@
    }

    /// A record whose command line is not known yet.
    pub fn new(pid: i32) -> (r: ProcessData)
        ensures
            r.spec_pid() == pid,
            r.spec_cmdline() == "UNKNOWN"@,
    {
        ProcessData { pid, cmdline: String::from_str("UNKNOWN") }
    }

    /// A record with a known command line.
    pub fn with_cmdline(pid: i32, cmdline: String) -> (r: ProcessData)
        ensures
            r.spec_pid() == pid,
            r.spec_cmdline() == cmdline@,
    {
        ProcessData { pid, cmdline }
    }

    pub fn pid(&self) -> (r: i32)
        ensures
            r == self.spec_pid(),
    {
        self.pid
    }

    pub fn cmdline(&self) -> (r: &str)
        ensures
            r@ == self.spec_cmdline(),
    {
        self.cmdline.as_str()
    }

    /// Takes the command line from the raw, NUL-separated text that the
    /// process exposes.
    pub fn set_raw_cmdline(&mut self, raw: &str)
        ensures
            final(self).spec_pid() == old(self).spec_pid(),
            final(self).spec_cmdline() == cleaned_cmdline(raw@),
    {
        let spaced = replace_nul(raw);
        self.cmdline = trimmed(spaced.as_str());
    }
}

impl NodeLines for ProcessData {
    open spec fn view_lines(&self) -> Seq<Seq<char>> {
        text_lines(self.spec_cmdline())
    }

    fn lines(&self) -> (r: Vec<String>) {
        split_lines(self.cmdline())
    }
}

/// The lines of a process's command line, one at a time.
pub struct ProcessDataLineIter {
    lines: Vec<String>,
    pos: usize,
}

impl ProcessDataLineIter {
    /// The lines that are still to come.
    pub closed spec fn remaining(&self) -> Seq<Seq<char>> {
        self.lines@.map_values(|l: String| l@).subrange(self.pos as int, self.lines@.len() as int)
    }

    pub closed spec fn inv(&self) -> bool {
        self.pos <= self.lines@.len()
    }

    pub fn new(proc_data: &ProcessData) -> (r: ProcessDataLineIter)
        ensures
            r.inv(),
            r.remaining() == text_lines(proc_data.spec_cmdline()),
    {
        let r = ProcessDataLineIter { lines: split_lines(proc_data.cmdline()), pos: 0 };
        assert(r.remaining() =~= text_lines(proc_data.spec_cmdline()));
        r
    }

    pub fn next(&mut self) -> (r: Option<String>)
        requires
            old(self).inv(),
        ensures
            final(self).inv(),
            match r {
                None => old(self).remaining().len() == 0 && final(self).remaining().len() == 0,
                Some(l) => old(self).remaining().len() > 0 && l@ == old(self).remaining()[0]
                    && final(self).remaining() == old(self).remaining().drop_first(),
            },
    {
        if self.pos >= self.lines.len() {
            return None;
        }
        let l = self.lines[self.pos].clone();
        let ghost before = self.remaining();
        self.pos = self.pos + 1;
        assert(self.remaining() =~= before.drop_first());
        Some(l)
    }
}

} // verus!
