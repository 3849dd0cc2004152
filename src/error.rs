//! The failure value threaded through the kernel: an ordered list of frames,
//! one per layer that reported or forwarded the failure.
use vstd::prelude::*;
use vstd::string::StringExecFns;
use crate::parse::{digits, write_digits, write_str};

verus! {

/// One frame of a failure: where it was reported, and why.
#[derive(Debug)]
pub struct ErrorFrame {
    pub filename: String,
    pub line: u32,
    pub msg: String,
}

impl View for ErrorFrame {
    type V = (Seq<char>, u32, Seq<char>);

    open spec fn view(&self) -> (Seq<char>, u32, Seq<char>) {
        (self.filename@, self.line, self.msg@)
    }
}

/// A chained failure: the innermost frame first, each outer layer after it.
#[derive(Debug)]
pub struct SRLError {
    frames: Vec<ErrorFrame>,
}

impl View for SRLError {
    type V = Seq<(Seq<char>, u32, Seq<char>)>;

    closed spec fn view(&self) -> Seq<(Seq<char>, u32, Seq<char>)> {
        self.frames@.map_values(|f: ErrorFrame| f@)
    }
}

/// The outcome of a kernel operation.
pub type SRLResult<T> = Result<T, SRLError>;

impl SRLError {
    /// A failure of one frame; `line` is 0 where no source line applies.
    pub fn new(filename: &str, line: u32, msg: String) -> (r: SRLError)
        ensures
            r@ == seq![(filename@, line, msg@)],
    {
        let mut frames: Vec<ErrorFrame> = Vec::new();
        frames.push(ErrorFrame { filename: String::from_str(filename), line, msg });
        let r = SRLError { frames };
        assert(r@ =~= seq![(filename@, line, msg@)]);
        r
    }

    /// Appends the frames of `outer` after this failure's own frames.
    pub fn add_outer(&mut self, outer: SRLError)
        ensures
            final(self)@ == old(self)@ + outer@,
    {
        let mut outer = outer;
        let ghost mine = self.frames@;
        let ghost theirs = outer.frames@;
        self.frames.append(&mut outer.frames);
        assert(self.frames@ == mine + theirs);
        assert(self.frames@.map_values(|f: ErrorFrame| f@) =~= mine.map_values(
            |f: ErrorFrame| f@,
        ) + theirs.map_values(|f: ErrorFrame| f@));
    }
}

/// The text of one frame: `ERR(location:line)` on a line of its own, with
/// the message in quotes before the closing parenthesis where there is one.
pub open spec fn frame_text(f: (Seq<char>, u32, Seq<char>)) -> Seq<char> {
    seq!['\n', 'E', 'R', 'R', '('] + f.0 + seq![':'] + digits(f.1 as nat) + if f.2.len() == 0 {
        seq![')']
    } else {
        seq![' ', '"'] + f.2 + seq!['"', ')']
    }
}

/// The texts of the frames, innermost first.
pub open spec fn frames_text(fs: Seq<(Seq<char>, u32, Seq<char>)>) -> Seq<char>
    decreases fs.len(),
{
    if fs.len() == 0 {
        Seq::empty()
    } else {
        frames_text(fs.drop_last()) + frame_text(fs.last())
    }
}

impl SRLError {
    /// The text of this failure: each frame in order, then a line break.
    pub fn to_string(&self) -> (r: String)
        ensures
            r@ == frames_text(self@) + seq!['\n'],
    {
        let mut out = String::new();
        let mut i: usize = 0;
        assert(self@.subrange(0, 0) =~= Seq::<(Seq<char>, u32, Seq<char>)>::empty());
        while i < self.frames.len()
            invariant
                i <= self.frames@.len(),
                self@ == self.frames@.map_values(|f: ErrorFrame| f@),
                out@ == frames_text(self@.subrange(0, i as int)),
            decreases self.frames.len() - i,
        {
            proof {
                reveal_strlit("\nERR(");
                reveal_strlit(":");
                reveal_strlit(")");
                reveal_strlit(" \"");
                reveal_strlit("\")");
            }
            let ghost before = out@;
            let f = &self.frames[i];
            write_str("\nERR(", &mut out);
            write_str(f.filename.as_str(), &mut out);
            write_str(":", &mut out);
            write_digits(f.line, &mut out);
            if f.msg.as_str().unicode_len() == 0 {
                write_str(")", &mut out);
            } else {
                write_str(" \"", &mut out);
                write_str(f.msg.as_str(), &mut out);
                write_str("\")", &mut out);
            }
            proof {
                let fs = self@.subrange(0, i + 1);
                assert(fs.drop_last() =~= self@.subrange(0, i as int));
                assert(fs.last() == f@);
                assert(out@ =~= before + frame_text(f@));
            }
            i += 1;
        }
        proof {
            reveal_strlit("\n");
        }
        write_str("\n", &mut out);
        assert(self@.subrange(0, i as int) =~= self@);
        out
    }
}

/// Forwards the failure `e` through the layer `location`, which adds its
/// frame after those of `e`.
pub fn forward<T>(e: SRLError, location: &str) -> (r: SRLResult<T>)
    ensures
        r is Err,
        r->Err_0@ == e@ + seq![(location@, 0u32, Seq::<char>::empty())],
{
    let mut e = e;
    e.add_outer(SRLError::new(location, 0, String::new()));
    Err(e)
}

/// A failure reported by `location`, with a message.
pub fn fail<T>(location: &str, msg: &str) -> (r: SRLResult<T>)
    ensures
        r is Err,
        r->Err_0@ == seq![(location@, 0u32, msg@)],
{
    Err(SRLError::new(location, 0, String::from_str(msg)))
}

} // verus!
