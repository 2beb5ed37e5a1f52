//! One whole element off a stream, tag and length included, decided a read
//! at a time: the reader says how many bytes it wants next, whoever holds
//! the stream reads exactly that many and hands them back, and the reader
//! says what it wants then, or gives the element, or refuses it.
//!
//! The bound on the contents is the caller's, because only the protocol
//! knows how large an answer can honestly be.

use vstd::prelude::*;

use crate::decode::{length, length_spec};
use crate::text::{too_large, too_large_text};
use crate::Asn1Error;

verus! {

/// Where a reader stands in an element.
#[derive(Clone, Copy, Debug, PartialEq, Eq, Structural)]
pub enum Stage {
    /// Before the tag and the first byte of the length.
    Opening,
    /// Before the rest of a long-form length.
    Length,
    /// Before the contents.
    Contents,
}

/// A reader of one element off a stream.
pub struct ElementReader {
    element: Vec<u8>,
    largest: usize,
    stage: Stage,
    want: usize,
}

/// A reader by value: what it has read, its bound, where it stands, and how
/// many bytes it wants next.
pub struct ReaderView {
    /// The bytes of the element read so far.
    pub element: Seq<u8>,
    /// The most contents it reads.
    pub largest: nat,
    /// Where it stands.
    pub stage: Stage,
    /// How many bytes it wants next.
    pub want: nat,
}

/// What a reader does once it has the bytes it wanted.
pub enum Step {
    /// It wants more: the reader to go on with.
    More(ElementReader),
    /// The whole element, tag and length included.
    Done(Vec<u8>),
    /// Why the element is not one this reads.
    Refused(Asn1Error),
}

/// A step by value.
pub enum StepView {
    /// It wants more.
    More(ReaderView),
    /// The whole element.
    Done(Seq<u8>),
    /// The words of why it was refused.
    Refused(Seq<char>),
}

impl View for ElementReader {
    type V = ReaderView;

    closed spec fn view(&self) -> ReaderView {
        ReaderView {
            element: self.element@,
            largest: self.largest as nat,
            stage: self.stage,
            want: self.want as nat,
        }
    }
}

/// A step taken by value.
pub open spec fn step_view(step: Step) -> StepView {
    match step {
        Step::More(reader) => StepView::More(reader@),
        Step::Done(element) => StepView::Done(element@),
        Step::Refused(e) => StepView::Refused(e.message@),
    }
}

/// A reader that has read nothing and wants the tag and the first byte of
/// the length.
pub open spec fn start_view(largest: nat) -> ReaderView {
    ReaderView { element: seq![], largest, stage: Stage::Opening, want: 2 }
}

/// How many more bytes of length a long-form first byte `first` asks for:
/// its low seven bits, and never more than four.
pub open spec fn length_bytes_wanted(first: u8) -> nat {
    if first - 0x80 > 4 {
        4
    } else {
        (first - 0x80) as nat
    }
}

/// With the whole of the tag and length in `header`: how many bytes of
/// contents follow, or the words of why the length is not one this reads or
/// is more than `largest`.
pub open spec fn contents_wanted(header: Seq<u8>, largest: nat) -> Result<nat, Seq<char>> {
    match length_spec(header.drop_first()) {
        Err(why) => Err(why),
        Ok((said, _)) => if said > largest {
            Err(too_large_text(said, largest))
        } else {
            Ok(said)
        },
    }
}

/// The step after the whole of the tag and length, `header`.
pub open spec fn after_header(header: Seq<u8>, largest: nat) -> StepView {
    match contents_wanted(header, largest) {
        Err(why) => StepView::Refused(why),
        Ok(said) => StepView::More(
            ReaderView { element: header, largest, stage: Stage::Contents, want: said },
        ),
    }
}

/// What a reader `reader` does with the bytes it wanted.
pub open spec fn advance_spec(reader: ReaderView, bytes: Seq<u8>) -> StepView {
    let element = reader.element + bytes;
    match reader.stage {
        Stage::Opening => if element[1] >= 0x80 {
            StepView::More(
                ReaderView {
                    element,
                    largest: reader.largest,
                    stage: Stage::Length,
                    want: length_bytes_wanted(element[1]),
                },
            )
        } else {
            after_header(element, reader.largest)
        },
        Stage::Length => after_header(element, reader.largest),
        Stage::Contents => StepView::Done(element),
    }
}

/// A reader run on `stream` for at most `steps` steps: the last step, and
/// what the stream has left. Where the stream has fewer bytes than the
/// reader wants, it stops there.
pub open spec fn drive(reader: ReaderView, stream: Seq<u8>, steps: nat) -> (StepView, Seq<u8>)
    decreases steps,
{
    if steps == 0 || stream.len() < reader.want {
        (StepView::More(reader), stream)
    } else {
        let rest = stream.skip(reader.want as int);
        match advance_spec(reader, stream.take(reader.want as int)) {
            StepView::More(next) => drive(next, rest, (steps - 1) as nat),
            other => (other, rest),
        }
    }
}

impl ElementReader {
    #[verifier::type_invariant]
    spec fn well_formed(self) -> bool {
        &&& self.stage == Stage::Opening ==> self.element@.len() == 0 && self.want == 2
        &&& self.stage != Stage::Opening ==> self.element@.len() >= 2
    }

    /// A reader of one element whose contents are at most `largest` bytes.
    pub fn new(largest: usize) -> (reader: ElementReader)
        ensures
            reader@ == start_view(largest as nat),
    {
        ElementReader { element: Vec::new(), largest, stage: Stage::Opening, want: 2 }
    }

    /// How many bytes the reader wants next.
    pub fn wanted(&self) -> (want: usize)
        ensures
            want as nat == self@.want,
    {
        self.want
    }

    /// The step after the whole of the tag and length, `element`.
    fn after_header(element: Vec<u8>, largest: usize) -> (step: Step)
        requires
            element@.len() >= 2,
        ensures
            step_view(step) == after_header(element@, largest as nat),
    {
        let said = match length(&element.as_slice()[1..element.len()]) {
            Ok((said, _)) => said,
            Err(e) => {
                assert(element@.subrange(1, element@.len() as int) =~= element@.drop_first());
                return Step::Refused(e);
            },
        };
        assert(element@.subrange(1, element@.len() as int) =~= element@.drop_first());
        if said > largest {
            return Step::Refused(Asn1Error { message: too_large(said, largest) });
        }
        Step::More(ElementReader { element, largest, stage: Stage::Contents, want: said })
    }

    /// Hand the reader the bytes it wanted, exactly that many.
    pub fn advance(self, bytes: &[u8]) -> (step: Step)
        requires
            bytes@.len() == self@.want,
        ensures
            step_view(step) == advance_spec(self@, bytes@),
    {
        proof {
            use_type_invariant(&self);
        }
        let ElementReader { mut element, largest, stage, want } = self;
        let mut i: usize = 0;
        let ghost before = element@;
        while i < bytes.len()
            invariant
                0 <= i <= bytes.len(),
                element@ == before + bytes@.subrange(0, i as int),
            decreases bytes.len() - i,
        {
            element.push(bytes[i]);
            i = i + 1;
            assert(element@ =~= before + bytes@.subrange(0, i as int));
        }
        assert(bytes@.subrange(0, bytes.len() as int) =~= bytes@);
        match stage {
            Stage::Opening => {
                let second = element[1];
                if second >= 0x80 {
                    let width = (second & 0x7f) as usize;
                    assert(second & 0x7f == second - 0x80) by (bit_vector)
                        requires
                            second >= 0x80,
                    ;
                    let want = if width > 4 {
                        4
                    } else {
                        width
                    };
                    Step::More(ElementReader { element, largest, stage: Stage::Length, want })
                } else {
                    Self::after_header(element, largest)
                }
            },
            Stage::Length => Self::after_header(element, largest),
            Stage::Contents => Step::Done(element),
        }
    }
}

} // verus!
