//! Saving on a spoken phrase.
//!
//! The recognizer compares what it hears with the one phrase that it waits for;
//! nothing is transcribed. What is made of its answers stands here.
use crate::text;
use vstd::prelude::*;

verus! {

/// Characters that a phrase needs at least. A short one is easily mistaken for
/// ordinary talk.
pub const MIN_PHRASE_LEN: usize = 6;

/// How sure the recognizer is.
#[derive(Debug, Clone, Copy, PartialEq, Eq, Structural)]
pub enum Confidence {
    High,
    Medium,
    Low,
    Rejected,
}

/// Why listening did not start.
#[derive(Debug, Clone, Copy, PartialEq, Eq, Structural)]
pub enum VoiceError {
    PhraseTooShort,
    /// The recognizer refused the phrase, with a status.
    Refused(i32),
}

impl VoiceError {
    pub open spec fn text(self) -> Seq<char> {
        match self {
            VoiceError::PhraseTooShort => "la phrase d'activation doit faire au moins "@
                + text::decimal(MIN_PHRASE_LEN as nat) + " caractères"@,
            VoiceError::Refused(status) => "Windows a refusé la phrase d'activation (statut "@
                + text::signed(status as int) + ")"@,
        }
    }

    pub fn message(&self) -> (r: String)
        ensures
            r@ == self.text(),
    {
        match self {
            VoiceError::PhraseTooShort => {
                let mut r = "la phrase d'activation doit faire au moins ".to_owned();
                r.append(text::decimal_text(MIN_PHRASE_LEN as u64).as_str());
                r.append(" caractères");
                r
            },
            VoiceError::Refused(status) => {
                let mut r = "Windows a refusé la phrase d'activation (statut ".to_owned();
                r.append(text::signed_text(*status as i64).as_str());
                r.append(")");
                r
            },
        }
    }
}

/// Keeps the sure recognitions only: a save that nobody asked for costs more
/// than a phrase to repeat.
pub fn is_confident(confidence: Confidence) -> (r: bool)
    ensures
        r == (confidence == Confidence::High || confidence == Confidence::Medium),
{
    confidence == Confidence::High || confidence == Confidence::Medium
}

/// What to make of a recognition.
#[derive(Debug, Clone, Copy, PartialEq, Eq, Structural)]
pub enum Reaction {
    /// Nothing: listening has ended, or there is no result.
    Ignore,
    /// The phrase was heard, but not surely enough.
    Unsure,
    Trigger,
}

/// Listening for a phrase.
#[derive(Debug)]
pub struct VoiceTrigger {
    pub phrase: String,
    /// Set before the recognizer has actually ended: it can deliver a last
    /// result on its way out.
    pub stopped: bool,
}

impl VoiceTrigger {
    /// Accepts a phrase, without the white space around it.
    pub fn start(phrase: &str) -> (r: Result<Self, VoiceError>)
        ensures
            match r {
                Ok(trigger) => {
                    &&& text::trimmed(phrase@).len() >= MIN_PHRASE_LEN
                    &&& trigger.phrase@ == text::trimmed(phrase@)
                    &&& !trigger.stopped
                },
                Err(e) => text::trimmed(phrase@).len() < MIN_PHRASE_LEN && e
                    == VoiceError::PhraseTooShort,
            },
            r is Ok <==> text::trimmed(phrase@).len() >= 6,
    {
        let phrase = text::trim(phrase);
        if phrase.as_str().unicode_len() < MIN_PHRASE_LEN {
            return Err(VoiceError::PhraseTooShort);
        }
        Ok(VoiceTrigger { phrase, stopped: false })
    }

    /// Checks the status with which the phrase was compiled.
    pub fn compiled(&self, status: i32) -> (r: Result<(), VoiceError>)
        ensures
            r == (if status == 0 {
                Ok::<(), VoiceError>(())
            } else {
                Err(VoiceError::Refused(status))
            }),
    {
        if status != 0 {
            return Err(VoiceError::Refused(status));
        }
        Ok(())
    }

    /// Decides what to make of a recognition: whether it came with a result, and
    /// how sure that is, where it can be told.
    pub fn hear(&self, result: bool, confidence: Option<Confidence>) -> (r: Reaction)
        ensures
            r == (if self.stopped || !result {
                Reaction::Ignore
            } else if confidence == Some(Confidence::High) || confidence == Some(
                Confidence::Medium,
            ) {
                Reaction::Trigger
            } else {
                Reaction::Unsure
            }),
    {
        if self.stopped || !result {
            return Reaction::Ignore;
        }
        match confidence {
            Some(confidence) => {
                if is_confident(confidence) {
                    Reaction::Trigger
                } else {
                    Reaction::Unsure
                }
            },
            None => Reaction::Unsure,
        }
    }

    /// Ends listening: from here on nothing triggers.
    pub fn stop(&mut self)
        ensures
            final(self).stopped,
            final(self).phrase == old(self).phrase,
    {
        self.stopped = true;
    }
}

/// State of an operation that runs by itself.
#[derive(Debug, Clone, Copy, PartialEq, Eq, Structural)]
pub enum OperationState {
    Started,
    Completed,
    Canceled,
    Error,
}

/// What to do about an operation that runs by itself.
#[derive(Debug, Clone, Copy, PartialEq, Eq, Structural)]
pub enum Poll {
    Ready,
    Failed,
    TimedOut,
    /// Look again after a moment.
    Wait,
}

/// Decides what to do about an operation, given its state and the time. It has
/// until the deadline; one that is complete counts even after that.
pub fn poll(state: OperationState, now_ns: u64, deadline_ns: u64) -> (r: Poll)
    ensures
        r == (match state {
            OperationState::Completed => Poll::Ready,
            OperationState::Error | OperationState::Canceled => Poll::Failed,
            OperationState::Started => if now_ns > deadline_ns {
                Poll::TimedOut
            } else {
                Poll::Wait
            },
        }),
{
    match state {
        OperationState::Completed => Poll::Ready,
        OperationState::Error => Poll::Failed,
        OperationState::Canceled => Poll::Failed,
        OperationState::Started => {
            if now_ns > deadline_ns {
                Poll::TimedOut
            } else {
                Poll::Wait
            }
        },
    }
}

} // verus!
