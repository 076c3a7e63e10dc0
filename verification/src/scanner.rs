use vstd::prelude::*;

use crate::error::ParseError;
use crate::expr::{classify_val, text_of, Expr};
use crate::frame::{entries_have_key, frame_model, pairs_to_entries, Frame, FrameKind};
use crate::text::{chars_of, string_from_chars};
use crate::val::{val_eq, val_wf, Val};
use crate::number::{int_text, push_range};

verus! {

broadcast use crate::expr::lemma_exprs_view_len, crate::expr::lemma_exprs_view_index;

// ---------------------------------------------------------------------------
// The scanner's model: a stack of open frames and the pending atom buffer.
// The specification walks the input one character at a time, exactly as the
// dispatch table of the notation prescribes.
// ---------------------------------------------------------------------------

pub(crate) open spec fn frames_view(s: Seq<Frame>) -> Seq<(FrameKind, Seq<Val>)>
    decreases s,
{
    if s.len() == 0 {
        Seq::empty()
    } else {
        frames_view(s.drop_last()).push(frame_model(s.last()))
    }
}

pub(crate) broadcast proof fn lemma_frames_view_len(s: Seq<Frame>)
    ensures
        (#[trigger] frames_view(s)).len() == s.len(),
    decreases s,
{
    if s.len() > 0 {
        lemma_frames_view_len(s.drop_last());
    }
}

pub(crate) broadcast proof fn lemma_frames_view_index(s: Seq<Frame>, i: int)
    requires
        0 <= i < s.len(),
    ensures
        #[trigger] frames_view(s)[i] == frame_model(s[i]),
    decreases s,
{
    lemma_frames_view_len(s);
    if s.len() > 0 && i < s.len() - 1 {
        lemma_frames_view_index(s.drop_last(), i);
    }
}

/// A completed value appended to the topmost frame.
pub open spec fn push_top(fr: Seq<(FrameKind, Seq<Val>)>, v: Val) -> Seq<(FrameKind, Seq<Val>)> {
    fr.update(fr.len() - 1, (fr.last().0, fr.last().1.push(v)))
}

/// Flushing the pending atom buffer: an empty buffer is a no-op, anything
/// else classifies and lands in the topmost frame.
pub open spec fn flush_spec(fr: Seq<(FrameKind, Seq<Val>)>, buf: Seq<char>) -> Seq<
    (FrameKind, Seq<Val>),
> {
    if buf.len() == 0 || fr.len() == 0 {
        fr
    } else {
        push_top(fr, classify_val(buf))
    }
}

/// Closing a frame on `]` or `}`: flush the buffer, pop the topmost frame —
/// which must exist beyond the implicit one and match the bracket — convert
/// it, and append the result to the frame below.
pub open spec fn close_spec(fr: Seq<(FrameKind, Seq<Val>)>, buf: Seq<char>, c: char) -> Result<
    Seq<(FrameKind, Seq<Val>)>,
    ParseError,
> {
    let fr1 = flush_spec(fr, buf);
    if fr1.len() < 2 {
        Err(ParseError::UnmatchedClose)
    } else {
        let top = fr1.last();
        match top.0 {
            FrameKind::Array => if c != ']' {
                Err(ParseError::MismatchedClose)
            } else {
                Ok(push_top(fr1.drop_last(), Val::Arr(top.1)))
            },
            FrameKind::Dict => if c != '}' {
                Err(ParseError::MismatchedClose)
            } else {
                match pairs_to_entries(top.1, Seq::empty()) {
                    Ok(entries) => Ok(push_top(fr1.drop_last(), Val::Dict(entries))),
                    Err(e) => Err(e),
                }
            },
        }
    }
}

pub open spec fn is_hex_digit(c: char) -> bool {
    ('0' <= c && c <= '9') || ('a' <= c && c <= 'f') || ('A' <= c && c <= 'F')
}

pub open spec fn hex_digit_val(c: char) -> int {
    if '0' <= c && c <= '9' {
        c as int - '0' as int
    } else if 'a' <= c && c <= 'f' {
        c as int - 'a' as int + 10
    } else {
        c as int - 'A' as int + 10
    }
}

/// The character a two-digit hex escape denotes: a scalar in 0..=255.
pub open spec fn hex_escape_char(h1: char, h2: char) -> char {
    (hex_digit_val(h1) * 16 + hex_digit_val(h2)) as char
}

/// One step of the scanner per input character: `[` and `{` push frames,
/// `]` and `}` close one, whitespace flushes the pending atom, `"` enters
/// quoted-string mode, and anything else extends the pending atom.
pub open spec fn scan_spec(
    fr: Seq<(FrameKind, Seq<Val>)>,
    buf: Seq<char>,
    inp: Seq<char>,
) -> Result<Seq<(FrameKind, Seq<Val>)>, ParseError>
    decreases inp.len(), 1int,
{
    if inp.len() == 0 {
        Ok(flush_spec(fr, buf))
    } else {
        let c = inp.first();
        let rest = inp.drop_first();
        if c == '[' {
            scan_spec(fr.push((FrameKind::Array, Seq::empty())), buf, rest)
        } else if c == '{' {
            scan_spec(fr.push((FrameKind::Dict, Seq::empty())), buf, rest)
        } else if c == ']' || c == '}' {
            match close_spec(fr, buf, c) {
                Ok(fr2) => scan_spec(fr2, Seq::empty(), rest),
                Err(e) => Err(e),
            }
        } else if c == ' ' || c == '\t' || c == '\n' || c == '\r' {
            scan_spec(flush_spec(fr, buf), Seq::empty(), rest)
        } else if c == '"' {
            string_spec(flush_spec(fr, buf), Seq::empty(), rest)
        } else {
            scan_spec(fr, buf.push(c), rest)
        }
    }
}

/// Quoted-string mode: characters accumulate until an unescaped `"`; `\`
/// introduces the escapes `n`, `t`, `r`, `"`, `\`, a two-digit hex escape
/// after `x`, and passes any other character through; the stream ending
/// first is a parse error.
pub open spec fn string_spec(
    fr: Seq<(FrameKind, Seq<Val>)>,
    acc: Seq<char>,
    inp: Seq<char>,
) -> Result<Seq<(FrameKind, Seq<Val>)>, ParseError>
    decreases inp.len(), 0int,
{
    if inp.len() == 0 {
        Err(ParseError::UnterminatedString)
    } else {
        let c = inp.first();
        let rest = inp.drop_first();
        if c == '"' {
            if fr.len() == 0 {
                Err(ParseError::UnmatchedClose)
            } else {
                scan_spec(push_top(fr, Val::Str(acc)), Seq::empty(), rest)
            }
        } else if c == '\\' {
            if rest.len() == 0 {
                Err(ParseError::UnterminatedString)
            } else {
                let e = rest.first();
                let rest2 = rest.drop_first();
                if e == 'n' {
                    string_spec(fr, acc.push('\n'), rest2)
                } else if e == 't' {
                    string_spec(fr, acc.push('\t'), rest2)
                } else if e == 'r' {
                    string_spec(fr, acc.push('\r'), rest2)
                } else if e == '"' {
                    string_spec(fr, acc.push('"'), rest2)
                } else if e == '\\' {
                    string_spec(fr, acc.push('\\'), rest2)
                } else if e == 'x' {
                    if rest2.len() < 2 {
                        Err(ParseError::BadHexEscape)
                    } else if !is_hex_digit(rest2[0]) || !is_hex_digit(rest2[1]) {
                        Err(ParseError::BadHexEscape)
                    } else {
                        string_spec(
                            fr,
                            acc.push(hex_escape_char(rest2[0], rest2[1])),
                            rest2.skip(2),
                        )
                    }
                } else {
                    string_spec(fr, acc.push(e), rest2)
                }
            }
        } else {
            string_spec(fr, acc.push(c), rest)
        }
    }
}

/// The scanner's initial state: one implicit top-level array frame and an
/// empty atom buffer.
pub open spec fn initial_frames() -> Seq<(FrameKind, Seq<Val>)> {
    seq![(FrameKind::Array, Seq::<Val>::empty())]
}

/// What scanning a whole text and taking the final value yields: the run
/// must leave exactly the implicit frame, whose children become the
/// top-level array.
pub open spec fn parse_spec(inp: Seq<char>) -> Result<Val, ParseError> {
    match scan_spec(initial_frames(), Seq::empty(), inp) {
        Ok(fr) => if fr.len() == 1 {
            Ok(Val::Arr(fr[0].1))
        } else {
            Err(ParseError::UnclosedFrame)
        },
        Err(e) => Err(e),
    }
}

// ---------------------------------------------------------------------------
// The executable scanner
// ---------------------------------------------------------------------------

/// A single-pass, stack-based reader: a character source consumed left to
/// right, an explicit stack of open frames — never empty, the bottom one
/// being the implicit top-level array — and the pending atom buffer.
#[derive(Debug)]
pub struct PsonParser {
    input: Vec<char>,
    pos: usize,
    frames: Vec<Frame>,
    buffer: Vec<char>,
}

impl PsonParser {
    /// Validity: the read position lies within the input.
    pub closed spec fn wf(&self) -> bool {
        self.pos <= self.input@.len()
    }

    /// The model of the frame stack.
    pub closed spec fn frames_model(&self) -> Seq<(FrameKind, Seq<Val>)> {
        frames_view(self.frames@)
    }

    /// The pending atom buffer.
    pub closed spec fn buf_model(&self) -> Seq<char> {
        self.buffer@
    }

    /// The characters not yet consumed.
    pub closed spec fn remaining(&self) -> Seq<char> {
        self.input@.skip(self.pos as int)
    }

    /// A scanner over the characters of `text`, with the implicit top-level
    /// array frame open.
    pub fn new(text: &str) -> (r: PsonParser)
        ensures
            r.wf(),
            r.frames_model() == initial_frames(),
            r.buf_model() == Seq::<char>::empty(),
            r.remaining() == text@,
    {
        let input = chars_of(text);
        let mut frames: Vec<Frame> = Vec::new();
        frames.push(Frame::new(FrameKind::Array));
        let r = PsonParser { input, pos: 0, frames, buffer: Vec::new() };
        proof {
            broadcast use lemma_frames_view_len, lemma_frames_view_index;

            assert(r.frames_model() =~= initial_frames());
            assert(r.remaining() =~= text@);
        }
        r
    }

    /// As `new`, with the atom buffer sized ahead of time.
    pub fn with_buffer_capacity(text: &str, capacity: usize) -> (r: PsonParser)
        ensures
            r.wf(),
            r.frames_model() == initial_frames(),
            r.buf_model() == Seq::<char>::empty(),
            r.remaining() == text@,
    {
        let input = chars_of(text);
        let mut frames: Vec<Frame> = Vec::new();
        frames.push(Frame::new(FrameKind::Array));
        let r = PsonParser { input, pos: 0, frames, buffer: Vec::with_capacity(capacity) };
        proof {
            broadcast use lemma_frames_view_len, lemma_frames_view_index;

            assert(r.frames_model() =~= initial_frames());
            assert(r.remaining() =~= text@);
        }
        r
    }

    /// Appends a completed value to the topmost frame.
    fn push_value(&mut self, e: Expr)
        requires
            old(self).frames@.len() >= 1,
        ensures
            final(self).input == old(self).input,
            final(self).pos == old(self).pos,
            final(self).buffer == old(self).buffer,
            final(self).frames@.len() == old(self).frames@.len(),
            frames_view(final(self).frames@) == push_top(frames_view(old(self).frames@), e@),
    {
        proof {
            broadcast use lemma_frames_view_len, lemma_frames_view_index;

        }
        let mut top = self.frames.pop().unwrap();
        top.push(e);
        self.frames.push(top);
        proof {
            let v0 = old(self).frames@;
            let v1 = self.frames@;
            assert(v1 =~= v0.drop_last().push(v1.last()));
            assert(frame_model(v1.last()) == (frame_model(v0.last()).0, frame_model(
                v0.last(),
            ).1.push(e@)));
            assert(frames_view(v1) =~= push_top(frames_view(v0), e@));
        }
    }

    /// Flushes the pending atom buffer: classifies the gathered token, if
    /// any, and appends it to the topmost frame.
    fn process_buffer(&mut self)
        requires
            old(self).frames@.len() >= 1,
        ensures
            final(self).input == old(self).input,
            final(self).pos == old(self).pos,
            final(self).buffer@ == Seq::<char>::empty(),
            final(self).frames@.len() >= 1,
            frames_view(final(self).frames@) == flush_spec(
                frames_view(old(self).frames@),
                old(self).buffer@,
            ),
    {
        proof {
            broadcast use lemma_frames_view_len, lemma_frames_view_index;

        }
        if self.buffer.len() > 0 {
            let mut cs: Vec<char> = Vec::new();
            push_range(&self.buffer, 0, self.buffer.len(), &mut cs);
            proof {
                assert(cs@ =~= old(self).buffer@);
            }
            self.buffer.clear();
            let e = Expr::from_atom(cs);
            self.push_value(e);
        }
    }

    /// Closes the topmost frame on `]` or `}`: flushes the pending atom,
    /// pops the frame — which must exist and match the bracket — converts
    /// it, and appends the result to the frame below.
    fn close_frame(&mut self, brace: char) -> (r: Result<(), ParseError>)
        requires
            old(self).frames@.len() >= 1,
            brace == ']' || brace == '}',
        ensures
            final(self).input == old(self).input,
            final(self).pos == old(self).pos,
            final(self).frames@.len() >= 1,
            match r {
                Ok(()) => {
                    &&& final(self).buffer@ == Seq::<char>::empty()
                    &&& close_spec(frames_view(old(self).frames@), old(self).buffer@, brace)
                        == Ok::<Seq<(FrameKind, Seq<Val>)>, ParseError>(frames_view(final(self).frames@))
                },
                Err(e) => close_spec(frames_view(old(self).frames@), old(self).buffer@, brace)
                    == Err::<Seq<(FrameKind, Seq<Val>)>, ParseError>(e),
            },
    {
        proof {
            broadcast use lemma_frames_view_len, lemma_frames_view_index;

        }
        self.process_buffer();
        let ghost fr1 = frames_view(self.frames@);
        if self.frames.len() < 2 {
            return Err(ParseError::UnmatchedClose);
        }
        let frame = self.frames.pop().unwrap();
        proof {
            assert(frame_model(frame) == fr1.last());
            assert(frames_view(self.frames@) =~= fr1.drop_last());
        }
        match frame.kind {
            FrameKind::Array => {
                if brace != ']' {
                    return Err(ParseError::MismatchedClose);
                }
                let e = frame.to_array();
                self.push_value(e);
                Ok(())
            },
            FrameKind::Dict => {
                if brace != '}' {
                    return Err(ParseError::MismatchedClose);
                }
                match frame.to_map() {
                    Ok(e) => {
                        self.push_value(e);
                        Ok(())
                    },
                    Err(err) => Err(err),
                }
            },
        }
    }
}

impl PsonParser {
    /// Reads the two characters of a hex escape and appends the character
    /// they denote.
    fn read_hex_escape(&mut self, acc: &mut Vec<char>) -> (r: Result<(), ParseError>)
        requires
            old(self).pos <= old(self).input@.len(),
        ensures
            final(self).input@ == old(self).input@,
            final(self).frames == old(self).frames,
            final(self).buffer == old(self).buffer,
            final(self).pos <= final(self).input@.len(),
            final(self).pos >= old(self).pos,
            match r {
                Ok(()) => {
                    let rem = old(self).input@.skip(old(self).pos as int);
                    &&& rem.len() >= 2
                    &&& is_hex_digit(rem[0])
                    &&& is_hex_digit(rem[1])
                    &&& final(acc)@ == old(acc)@.push(hex_escape_char(rem[0], rem[1]))
                    &&& final(self).pos == old(self).pos + 2
                },
                Err(e) => {
                    let rem = old(self).input@.skip(old(self).pos as int);
                    &&& e == ParseError::BadHexEscape
                    &&& (rem.len() < 2 || !is_hex_digit(rem[0]) || !is_hex_digit(rem[1]))
                    &&& *final(acc) == *old(acc)
                    &&& final(self).pos == old(self).pos
                },
            },
    {
        let n = self.input.len();
        if n - self.pos < 2 {
            return Err(ParseError::BadHexEscape);
        }
        let h1 = self.input[self.pos];
        let h2 = self.input[self.pos + 1];
        let ok1 = ('0' <= h1 && h1 <= '9') || ('a' <= h1 && h1 <= 'f') || ('A' <= h1 && h1
            <= 'F');
        let ok2 = ('0' <= h2 && h2 <= '9') || ('a' <= h2 && h2 <= 'f') || ('A' <= h2 && h2
            <= 'F');
        if !ok1 || !ok2 {
            return Err(ParseError::BadHexEscape);
        }
        let v1 = if '0' <= h1 && h1 <= '9' {
            h1 as u32 - '0' as u32
        } else if 'a' <= h1 && h1 <= 'f' {
            h1 as u32 - 'a' as u32 + 10
        } else {
            h1 as u32 - 'A' as u32 + 10
        };
        let v2 = if '0' <= h2 && h2 <= '9' {
            h2 as u32 - '0' as u32
        } else if 'a' <= h2 && h2 <= 'f' {
            h2 as u32 - 'a' as u32 + 10
        } else {
            h2 as u32 - 'A' as u32 + 10
        };
        let v = v1 * 16 + v2;
        proof {
            assert(v1 == hex_digit_val(h1));
            assert(v2 == hex_digit_val(h2));
            assert(0 <= v < 256);
        }
        let c = (v as u8) as char;
        proof {
            assert(c == hex_escape_char(h1, h2));
        }
        acc.push(c);
        self.pos = self.pos + 2;
        Ok(())
    }

    /// Quoted-string mode, entered after the opening `"`: flushes the
    /// pending atom, gathers characters and escapes until the closing `"`,
    /// and appends the finished string to the topmost frame. A quoted token
    /// is never classified.
    fn scan_quoted_string(&mut self) -> (r: Result<(), ParseError>)
        requires
            old(self).pos <= old(self).input@.len(),
            old(self).frames@.len() >= 1,
        ensures
            final(self).input@ == old(self).input@,
            final(self).pos <= final(self).input@.len(),
            final(self).pos >= old(self).pos,
            final(self).frames@.len() >= 1,
            match r {
                Ok(()) => {
                    &&& final(self).buffer@ == Seq::<char>::empty()
                    &&& string_spec(
                        flush_spec(frames_view(old(self).frames@), old(self).buffer@),
                        Seq::empty(),
                        old(self).input@.skip(old(self).pos as int),
                    ) == scan_spec(
                        frames_view(final(self).frames@),
                        final(self).buffer@,
                        final(self).input@.skip(final(self).pos as int),
                    )
                },
                Err(e) => string_spec(
                    flush_spec(frames_view(old(self).frames@), old(self).buffer@),
                    Seq::empty(),
                    old(self).input@.skip(old(self).pos as int),
                ) == Err::<Seq<(FrameKind, Seq<Val>)>, ParseError>(e),
            },
    {
        self.process_buffer();
        let ghost fr = frames_view(self.frames@);
        let ghost inp = self.input@;
        let ghost target = string_spec(fr, Seq::empty(), inp.skip(self.pos as int));
        let ghost fvec = self.frames@;
        let mut acc: Vec<char> = Vec::new();
        loop
            invariant
                inp == old(self).input@,
                self.input@ == inp,
                self.pos <= inp.len(),
                self.pos >= old(self).pos,
                self.frames@ == fvec,
                fr == frames_view(fvec),
                fr == flush_spec(frames_view(old(self).frames@), old(self).buffer@),
                fvec.len() >= 1,
                self.buffer@ == Seq::<char>::empty(),
                target == string_spec(fr, Seq::empty(), inp.skip(old(self).pos as int)),
                string_spec(fr, acc@, inp.skip(self.pos as int)) == target,
            decreases inp.len() - self.pos,
        {
            if self.pos == self.input.len() {
                return Err(ParseError::UnterminatedString);
            }
            let ghost rem0 = inp.skip(self.pos as int);
            let c = self.input[self.pos];
            self.pos = self.pos + 1;
            proof {
                broadcast use lemma_frames_view_len;

                assert(rem0.first() == c);
                assert(rem0.drop_first() =~= inp.skip(self.pos as int));
            }
            if c == '"' {
                let s = string_from_chars(&acc);
                self.push_value(Expr::String(s));
                return Ok(());
            }
            if c == '\\' {
                if self.pos == self.input.len() {
                    proof {
                        assert(rem0.drop_first().len() == 0);
                    }
                    return Err(ParseError::UnterminatedString);
                }
                let ghost rem1 = inp.skip(self.pos as int);
                let e = self.input[self.pos];
                self.pos = self.pos + 1;
                proof {
                    assert(rem1.first() == e);
                    assert(rem1.drop_first() =~= inp.skip(self.pos as int));
                }
                if e == 'n' {
                    acc.push('\n');
                } else if e == 't' {
                    acc.push('\t');
                } else if e == 'r' {
                    acc.push('\r');
                } else if e == '"' {
                    acc.push('"');
                } else if e == '\\' {
                    acc.push('\\');
                } else if e == 'x' {
                    let ghost rem2 = inp.skip(self.pos as int);
                    match self.read_hex_escape(&mut acc) {
                        Ok(()) => {
                            proof {
                                assert(rem2.skip(2) =~= inp.skip(self.pos as int));
                            }
                        },
                        Err(er) => {
                            return Err(er);
                        },
                    }
                } else {
                    acc.push(e);
                }
            } else {
                acc.push(c);
            }
        }
    }

    /// Consumes the remaining characters, dispatching each as the notation
    /// prescribes, and flushes any pending atom at the end of the stream.
    /// The frame stack is not required to be balanced here: imbalance is
    /// detected by `get`.
    pub fn parse(&mut self) -> (r: Result<(), ParseError>)
        requires
            old(self).wf(),
            old(self).frames_model().len() >= 1,
        ensures
            final(self).wf(),
            match r {
                Ok(()) => {
                    &&& scan_spec(
                        old(self).frames_model(),
                        old(self).buf_model(),
                        old(self).remaining(),
                    ) == Ok::<Seq<(FrameKind, Seq<Val>)>, ParseError>(final(self).frames_model())
                    &&& final(self).frames_model().len() >= 1
                    &&& final(self).buf_model() == Seq::<char>::empty()
                    &&& final(self).remaining() == Seq::<char>::empty()
                },
                Err(e) => scan_spec(
                    old(self).frames_model(),
                    old(self).buf_model(),
                    old(self).remaining(),
                ) == Err::<Seq<(FrameKind, Seq<Val>)>, ParseError>(e),
            },
    {
        let ghost inp = self.input@;
        let ghost target = scan_spec(
            frames_view(self.frames@),
            self.buffer@,
            inp.skip(self.pos as int),
        );
        while self.pos < self.input.len()
            invariant
                inp == old(self).input@,
                self.input@ == inp,
                self.pos <= inp.len(),
                self.frames@.len() >= 1,
                target == scan_spec(
                    old(self).frames_model(),
                    old(self).buf_model(),
                    old(self).remaining(),
                ),
                scan_spec(frames_view(self.frames@), self.buffer@, inp.skip(self.pos as int))
                    == target,
            decreases inp.len() - self.pos,
        {
            proof {
                broadcast use lemma_frames_view_len, lemma_frames_view_index;

            }
            let ghost rem0 = inp.skip(self.pos as int);
            let c = self.input[self.pos];
            self.pos = self.pos + 1;
            proof {
                assert(rem0.first() == c);
                assert(rem0.drop_first() =~= inp.skip(self.pos as int));
            }
            if c == '[' {
                let ghost fv0 = self.frames@;
                self.frames.push(Frame::new(FrameKind::Array));
                proof {
                    assert(self.frames@.drop_last() =~= fv0);
                    assert(frames_view(self.frames@) == frames_view(fv0).push(
                        (FrameKind::Array, Seq::<Val>::empty()),
                    ));
                }
            } else if c == '{' {
                let ghost fv0 = self.frames@;
                self.frames.push(Frame::new(FrameKind::Dict));
                proof {
                    assert(self.frames@.drop_last() =~= fv0);
                    assert(frames_view(self.frames@) == frames_view(fv0).push(
                        (FrameKind::Dict, Seq::<Val>::empty()),
                    ));
                }
            } else if c == ']' || c == '}' {
                match self.close_frame(c) {
                    Ok(()) => {},
                    Err(e) => {
                        return Err(e);
                    },
                }
            } else if c == ' ' || c == '\t' || c == '\n' || c == '\r' {
                self.process_buffer();
            } else if c == '"' {
                match self.scan_quoted_string() {
                    Ok(()) => {},
                    Err(e) => {
                        return Err(e);
                    },
                }
            } else {
                self.buffer.push(c);
            }
        }
        self.process_buffer();
        Ok(())
    }

    /// Finalizes parsing: exactly one frame — the implicit top-level array —
    /// may remain; its children become the returned array, and the scanner
    /// is consumed. Any other frame count is a parse error.
    pub fn get(&mut self) -> (r: Result<Expr, ParseError>)
        requires
            old(self).wf(),
        ensures
            final(self).wf(),
            (r is Ok) == (old(self).frames_model().len() == 1),
            match r {
                Ok(e) => e@ == Val::Arr(old(self).frames_model()[0].1)
                    && final(self).frames_model().len() == 0,
                Err(err) => err == ParseError::UnclosedFrame,
            },
    {
        proof {
            broadcast use lemma_frames_view_len, lemma_frames_view_index;

        }
        if self.frames.len() != 1 {
            return Err(ParseError::UnclosedFrame);
        }
        let frame = self.frames.pop().unwrap();
        proof {
            assert(frame_model(frame) == frames_view(old(self).frames@)[0]);
            assert(frames_view(self.frames@) =~= Seq::<(FrameKind, Seq<Val>)>::empty());
        }
        Ok(frame.to_array())
    }
}

/// Parses a whole text: scan it, then take the final value, which is a
/// well-formed tree.
pub fn parse_str(text: &str) -> (r: Result<Expr, ParseError>)
    ensures
        match r {
            Ok(e) => parse_spec(text@) == Ok::<Val, ParseError>(e@) && val_wf(e@),
            Err(err) => parse_spec(text@) == Err::<Val, ParseError>(err),
        },
{
    proof {
        lemma_parse_spec_wf(text@);
    }
    let mut p = PsonParser::new(text);
    match p.parse() {
        Ok(()) => {},
        Err(e) => {
            return Err(e);
        },
    }
    p.get()
}

// ---------------------------------------------------------------------------
// Well-formedness of everything the scanner builds
// ---------------------------------------------------------------------------

/// Every value in every open frame is well-formed.
pub open spec fn frames_wf(fr: Seq<(FrameKind, Seq<Val>)>) -> bool {
    forall|i: int, j: int|
        0 <= i < fr.len() && 0 <= j < (#[trigger] fr[i]).1.len() ==> val_wf(#[trigger] fr[i].1[j])
}

/// Classification builds only well-formed values.
pub proof fn lemma_classify_wf(buf: Seq<char>)
    ensures
        val_wf(classify_val(buf)),
{
}

proof fn lemma_push_top_wf(fr: Seq<(FrameKind, Seq<Val>)>, v: Val)
    requires
        frames_wf(fr),
        val_wf(v),
        fr.len() >= 1,
    ensures
        frames_wf(push_top(fr, v)),
{
    let fr2 = push_top(fr, v);
    assert forall|i: int, j: int|
        0 <= i < fr2.len() && 0 <= j < (#[trigger] fr2[i]).1.len() implies val_wf(
        #[trigger] fr2[i].1[j]) by {
        if i == fr.len() - 1 {
            if j < fr[i].1.len() {
                assert(fr2[i].1[j] == fr[i].1[j]);
            } else {
                assert(fr2[i].1[j] == v);
            }
        } else {
            assert(fr2[i] == fr[i]);
        }
    }
}

proof fn lemma_flush_wf(fr: Seq<(FrameKind, Seq<Val>)>, buf: Seq<char>)
    requires
        frames_wf(fr),
    ensures
        frames_wf(flush_spec(fr, buf)),
{
    if buf.len() == 0 || fr.len() == 0 {
    } else {
        lemma_classify_wf(buf);
        lemma_push_top_wf(fr, classify_val(buf));
    }
}

/// Every value an entry sequence carries is drawn from the paired children
/// or the gathered entries, so pairing preserves well-formedness.
proof fn lemma_entries_wf(items: Seq<Val>, acc: Seq<(Seq<char>, Val)>, entries: Seq<
    (Seq<char>, Val)>)
    requires
        pairs_to_entries(items, acc) == Ok::<Seq<(Seq<char>, Val)>, ParseError>(entries),
        forall|j: int| 0 <= j < items.len() ==> val_wf(#[trigger] items[j]),
        forall|a: int| 0 <= a < acc.len() ==> val_wf((#[trigger] acc[a]).1),
    ensures
        forall|a: int| 0 <= a < entries.len() ==> val_wf((#[trigger] entries[a]).1),
    decreases items.len(),
{
    if items.len() >= 2 {
        let key = items[items.len() - 2];
        match key {
            Val::Str(kk) => {
                let v = items.last();
                let front = items.take(items.len() - 2);
                let acc2 = if entries_have_key(acc, kk) {
                    acc
                } else {
                    acc.push((kk, v))
                };
                assert(forall|j: int|
                    0 <= j < front.len() ==> #[trigger] front[j] == items[j] && val_wf(front[j]));
                assert(forall|a: int| 0 <= a < acc2.len() ==> val_wf((#[trigger] acc2[a]).1))
                    by {
                    if !entries_have_key(acc, kk) {
                        assert(forall|a: int|
                            0 <= a < acc.len() ==> #[trigger] acc2[a] == acc[a]);
                        assert(acc2.last().1 == v);
                    }
                }
                lemma_entries_wf(front, acc2, entries);
            },
            _ => {},
        }
    }
}

proof fn lemma_close_wf(fr: Seq<(FrameKind, Seq<Val>)>, buf: Seq<char>, c: char)
    requires
        frames_wf(fr),
    ensures
        close_spec(fr, buf, c) matches Ok(fr2) ==> frames_wf(fr2),
{
    let fr1 = flush_spec(fr, buf);
    lemma_flush_wf(fr, buf);
    if fr1.len() >= 2 {
        let top = fr1.last();
        assert(forall|j: int| 0 <= j < top.1.len() ==> val_wf(#[trigger] top.1[j]));
        assert(frames_wf(fr1.drop_last())) by {
            assert(forall|i: int|
                0 <= i < fr1.len() - 1 ==> #[trigger] fr1.drop_last()[i] == fr1[i]);
        }
        match top.0 {
            FrameKind::Array => {
                if c == ']' {
                    assert(val_wf(Val::Arr(top.1)));
                    lemma_push_top_wf(fr1.drop_last(), Val::Arr(top.1));
                }
            },
            FrameKind::Dict => {
                if c == '}' {
                    match pairs_to_entries(top.1, Seq::empty()) {
                        Ok(entries) => {
                            lemma_entries_wf(top.1, Seq::empty(), entries);
                            crate::frame::lemma_map_pairing(top.1, entries);
                            assert(val_wf(Val::Dict(entries)));
                            lemma_push_top_wf(fr1.drop_last(), Val::Dict(entries));
                        },
                        Err(_) => {},
                    }
                }
            },
        }
    }
}

/// Whatever the scanner accepts is well-formed, frame by frame.
pub proof fn lemma_scan_wf(fr: Seq<(FrameKind, Seq<Val>)>, buf: Seq<char>, inp: Seq<char>)
    requires
        frames_wf(fr),
    ensures
        scan_spec(fr, buf, inp) matches Ok(fr2) ==> frames_wf(fr2),
    decreases inp.len(), 1int,
{
    if inp.len() == 0 {
        lemma_flush_wf(fr, buf);
    } else {
        let c = inp.first();
        let rest = inp.drop_first();
        if c == '[' || c == '{' {
            let kind = if c == '[' {
                FrameKind::Array
            } else {
                FrameKind::Dict
            };
            let fr2 = fr.push((kind, Seq::<Val>::empty()));
            assert(frames_wf(fr2)) by {
                assert(forall|i: int| 0 <= i < fr.len() ==> #[trigger] fr2[i] == fr[i]);
            }
            lemma_scan_wf(fr2, buf, rest);
        } else if c == ']' || c == '}' {
            lemma_close_wf(fr, buf, c);
            match close_spec(fr, buf, c) {
                Ok(fr2) => {
                    lemma_scan_wf(fr2, Seq::empty(), rest);
                },
                Err(_) => {},
            }
        } else if c == ' ' || c == '\t' || c == '\n' || c == '\r' {
            lemma_flush_wf(fr, buf);
            lemma_scan_wf(flush_spec(fr, buf), Seq::empty(), rest);
        } else if c == '"' {
            lemma_flush_wf(fr, buf);
            lemma_string_wf(flush_spec(fr, buf), Seq::empty(), rest);
        } else {
            lemma_scan_wf(fr, buf.push(c), rest);
        }
    }
}

proof fn lemma_string_wf(fr: Seq<(FrameKind, Seq<Val>)>, acc: Seq<char>, inp: Seq<char>)
    requires
        frames_wf(fr),
    ensures
        string_spec(fr, acc, inp) matches Ok(fr2) ==> frames_wf(fr2),
    decreases inp.len(), 0int,
{
    if inp.len() == 0 {
    } else {
        let c = inp.first();
        let rest = inp.drop_first();
        if c == '"' {
            if fr.len() > 0 {
                lemma_push_top_wf(fr, Val::Str(acc));
                lemma_scan_wf(push_top(fr, Val::Str(acc)), Seq::empty(), rest);
            }
        } else if c == '\\' {
            if rest.len() > 0 {
                let e = rest.first();
                let rest2 = rest.drop_first();
                if e == 'n' {
                    lemma_string_wf(fr, acc.push('\n'), rest2);
                } else if e == 't' {
                    lemma_string_wf(fr, acc.push('\t'), rest2);
                } else if e == 'r' {
                    lemma_string_wf(fr, acc.push('\r'), rest2);
                } else if e == '"' {
                    lemma_string_wf(fr, acc.push('"'), rest2);
                } else if e == '\\' {
                    lemma_string_wf(fr, acc.push('\\'), rest2);
                } else if e == 'x' {
                    if rest2.len() >= 2 && is_hex_digit(rest2[0]) && is_hex_digit(rest2[1]) {
                        lemma_string_wf(
                            fr,
                            acc.push(hex_escape_char(rest2[0], rest2[1])),
                            rest2.skip(2),
                        );
                    }
                } else {
                    lemma_string_wf(fr, acc.push(e), rest2);
                }
            }
        } else {
            lemma_string_wf(fr, acc.push(c), rest);
        }
    }
}

/// Whatever a whole parse yields is a well-formed value tree: every map
/// carries each key once, and every floating-point payload is a literal
/// the grammar accepts.
pub proof fn lemma_parse_spec_wf(inp: Seq<char>)
    ensures
        parse_spec(inp) matches Ok(v) ==> val_wf(v),
{
    assert(frames_wf(initial_frames())) by {
        assert(initial_frames().len() == 1 && initial_frames()[0].1.len() == 0);
    }
    lemma_scan_wf(initial_frames(), Seq::empty(), inp);
}

// ---------------------------------------------------------------------------
// The atom round trip, at the level of a whole parse
// ---------------------------------------------------------------------------

/// A character the dispatch table leaves to the pending atom: not a
/// bracket, not whitespace, not a quote.
pub open spec fn is_plain_char(c: char) -> bool {
    c != '[' && c != '{' && c != ']' && c != '}' && c != ' ' && c != '\t' && c != '\n' && c
        != '\r' && c != '"'
}

/// Scanning text made only of plain characters just extends the pending
/// atom.
proof fn lemma_scan_plain(fr: Seq<(FrameKind, Seq<Val>)>, buf: Seq<char>, txt: Seq<char>)
    requires
        forall|i: int| 0 <= i < txt.len() ==> is_plain_char(#[trigger] txt[i]),
    ensures
        scan_spec(fr, buf, txt) == Ok::<Seq<(FrameKind, Seq<Val>)>, ParseError>(
            flush_spec(fr, buf + txt),
        ),
    decreases txt.len(),
{
    if txt.len() == 0 {
        assert(buf + txt =~= buf);
    } else {
        let c = txt.first();
        let rest = txt.drop_first();
        assert(is_plain_char(c));
        assert(forall|i: int| 0 <= i < rest.len() ==> is_plain_char(#[trigger] rest[i]));
        lemma_scan_plain(fr, buf.push(c), rest);
        assert(buf.push(c) + rest =~= buf + txt);
    }
}

/// The canonical decimal text of an integer is made of plain characters.
proof fn lemma_int_text_plain(n: i128)
    ensures
        int_text(n as int).len() > 0,
        forall|i: int|
            0 <= i < int_text(n as int).len() ==> is_plain_char(#[trigger] int_text(n as int)[i]),
{
    if n >= 0 {
        crate::number::lemma_nat_text_digits(n as int);
        assert(forall|i: int|
            0 <= i < int_text(n as int).len() ==> crate::number::is_digit(
                #[trigger] int_text(n as int)[i],
            ));
    } else {
        let m = -(n as int);
        crate::number::lemma_nat_text_digits(m);
        let t = int_text(n as int);
        assert(t == seq!['-'] + crate::number::nat_text(m));
        assert(forall|i: int|
            1 <= i < t.len() ==> #[trigger] t[i] == crate::number::nat_text(m)[i - 1]
                && crate::number::is_digit(t[i]));
        assert(t[0] == '-');
    }
}

/// Rendering a classified atom, then scanning the rendering and taking the
/// final value, yields the top-level array of exactly one value, equal to
/// the original under value equality. It holds of every token made of the
/// characters an atom can carry, except one denoting a `nan`, which equals
/// nothing.
pub proof fn lemma_parse_round_trip(t: Seq<char>)
    requires
        t.len() > 0,
        forall|i: int| 0 <= i < t.len() ==> is_plain_char(#[trigger] t[i]),
        classify_val(t) matches Val::Float(ft) ==> !(crate::number::float_sem(ft) is Nan),
    ensures
        parse_spec(text_of(classify_val(t))) matches Ok(w) && w matches Val::Arr(items)
            && items.len() == 1 && val_eq(items[0], classify_val(t)),
{
    let v = classify_val(t);
    let txt = text_of(v);
    assert(txt.len() > 0 && forall|i: int|
        0 <= i < txt.len() ==> is_plain_char(#[trigger] txt[i])) by {
        match v {
            Val::Int(n) => {
                lemma_int_text_plain(n);
            },
            _ => {},
        }
    }
    lemma_scan_plain(initial_frames(), Seq::empty(), txt);
    assert(Seq::<char>::empty() + txt =~= txt);
    let fr2 = flush_spec(initial_frames(), txt);
    assert(fr2 == push_top(initial_frames(), classify_val(txt)));
    assert(fr2.len() == 1);
    assert(fr2[0].1 =~= seq![classify_val(txt)]);
    crate::expr::lemma_atom_round_trip(t);
}

} // verus!
