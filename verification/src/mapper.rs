//! The step from a matched piece of text to a line of the result.

use crate::text::spaces;
use vstd::prelude::*;

verus! {

/// How a rule hands on the text that it matched at a nesting level.
#[derive(Clone, Copy, Debug)]
pub enum Mapper {
    /// As a line of its own: as many spaces as the width given here times
    /// the level, then the text, then a line feed.
    Indent(usize),
    /// As it is.
    Verbatim,
}

impl Mapper {
    /// What becomes of `text` at `level`.
    pub open spec fn render(self, text: Seq<char>, level: nat) -> Seq<char> {
        match self {
            Mapper::Indent(width) => spaces(width as nat * level) + text + seq!['\n'],
            Mapper::Verbatim => text,
        }
    }

    /// Hands on `parsed` as the mapper asks.
    pub fn apply(&self, parsed: &[char], level: usize) -> (out: Vec<char>)
        ensures
            out@ == self.render(parsed@, level as nat),
    {
        let mut out: Vec<char> = Vec::new();
        match self {
            Mapper::Indent(width) => {
                let mut done: usize = 0;
                while done < level
                    invariant
                        done <= level,
                        out@ == spaces(*width as nat * done as nat),
                    decreases level - done,
                {
                    let mut i: usize = 0;
                    while i < *width
                        invariant
                            i <= *width,
                            out@ == spaces(*width as nat * done as nat + i as nat),
                        decreases *width - i,
                    {
                        out.push(' ');
                        i += 1;
                        assert(out@ =~= spaces(*width as nat * done as nat + i as nat));
                    }
                    done += 1;
                    assert(*width as nat * done as nat == *width as nat * (done - 1) as nat
                        + *width as nat) by (nonlinear_arith)
                        requires
                            done >= 1,
                    ;
                }
                let mut i: usize = 0;
                while i < parsed.len()
                    invariant
                        i <= parsed.len(),
                        out@ == spaces(*width as nat * level as nat) + parsed@.take(i as int),
                    decreases parsed.len() - i,
                {
                    out.push(parsed[i]);
                    i += 1;
                    assert(out@ =~= spaces(*width as nat * level as nat) + parsed@.take(i as int));
                }
                assert(parsed@.take(parsed.len() as int) =~= parsed@);
                out.push('\n');
            },
            Mapper::Verbatim => {
                let mut i: usize = 0;
                while i < parsed.len()
                    invariant
                        i <= parsed.len(),
                        out@ == parsed@.take(i as int),
                    decreases parsed.len() - i,
                {
                    out.push(parsed[i]);
                    i += 1;
                }
                assert(parsed@.take(parsed.len() as int) =~= parsed@);
            },
        }
        out
    }
}

} // verus!
